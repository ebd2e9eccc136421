//! The layout of what is printed: which text stands where, and in which
//! style. Colouring and printing are left to whoever prints.

use crate::scan_model::MatchModel;
use crate::scanner::{remotes_view, results_view, MatchResult};
use crate::text::{decimal, decimal_text};
use vstd::prelude::*;
use vstd::string::StringExecFns;

verus! {

/// How a piece of text is set off.
#[derive(Clone, Copy, Debug, PartialEq, Eq, Structural)]
pub enum Style {
    Plain,
    Bold,
    Blue,
    Cyan,
    Yellow,
    GreenBold,
    YellowBold,
}

/// A piece of text in one style.
#[derive(Debug, PartialEq, Eq)]
pub struct Span {
    pub style: Style,
    pub text: String,
}

/// What a `Span` stands for.
#[verifier::ext_equal]
pub struct SpanModel {
    pub style: Style,
    pub text: Seq<char>,
}

impl View for Span {
    type V = SpanModel;

    open spec fn view(&self) -> SpanModel {
        SpanModel { style: self.style, text: self.text@ }
    }
}

/// What the spans `spans` stand for.
pub open spec fn spans_view(spans: Seq<Span>) -> Seq<SpanModel> {
    Seq::new(spans.len(), |i: int| spans[i]@)
}

/// What the lines `lines` stand for.
pub open spec fn lines_view(lines: Seq<Vec<Span>>) -> Seq<Seq<SpanModel>> {
    Seq::new(lines.len(), |i: int| spans_view(lines[i]@))
}

/// The text `text` in the style `style`.
pub open spec fn span(style: Style, text: Seq<char>) -> SpanModel {
    SpanModel { style, text }
}

/// `repository` for one, `repositories` for any other number.
pub open spec fn noun(count: nat) -> Seq<char> {
    if count == 1 {
        "repository"@
    } else {
        "repositories"@
    }
}

/// The text that says that nothing matches `pattern`.
pub open spec fn nothing_found(pattern: Seq<char>) -> Seq<char> {
    "No repositories found matching '"@ + pattern + "'"@
}

/// `acc`, followed for each of `remotes` by a line break, its name and
/// its URL.
pub open spec fn with_remote_spans(
    acc: Seq<SpanModel>,
    remotes: Seq<(Seq<char>, Seq<char>)>,
) -> Seq<SpanModel>
    decreases remotes.len(),
{
    if remotes.len() == 0 {
        acc
    } else {
        with_remote_spans(acc, remotes.drop_last()).push(span(Style::Plain, "\n   "@)).push(
            span(Style::Blue, remotes.last().0),
        ).push(span(Style::Plain, ": "@)).push(span(Style::Plain, remotes.last().1))
    }
}

/// A match as it is shown while the scan runs: after a line break its
/// number and path, then each remote on a line of its own.
pub open spec fn match_spans(found: MatchModel, index: nat) -> Seq<SpanModel> {
    with_remote_spans(
        seq![
            span(Style::Plain, "\n"@),
            span(Style::Yellow, decimal(index)),
            span(Style::Plain, ". "@),
            span(Style::Bold, found.path),
        ],
        found.remotes,
    )
}

/// The line of one remote in the report.
pub open spec fn remote_line(remote: (Seq<char>, Seq<char>)) -> Seq<SpanModel> {
    seq![
        span(Style::Plain, "   "@),
        span(Style::Blue, remote.0),
        span(Style::Plain, ": "@),
        span(Style::Plain, remote.1),
    ]
}

/// `acc`, followed by the line of each of `remotes`.
pub open spec fn with_remote_lines(
    acc: Seq<Seq<SpanModel>>,
    remotes: Seq<(Seq<char>, Seq<char>)>,
) -> Seq<Seq<SpanModel>>
    decreases remotes.len(),
{
    if remotes.len() == 0 {
        acc
    } else {
        with_remote_lines(acc, remotes.drop_last()).push(remote_line(remotes.last()))
    }
}

/// The line that opens the match `found`, the `index`-th of the report.
pub open spec fn title_line(found: MatchModel, index: nat) -> Seq<SpanModel> {
    seq![
        span(Style::Yellow, decimal(index)),
        span(Style::Plain, ". "@),
        span(Style::Bold, found.path),
    ]
}

/// `acc`, followed for each of `results` by its title, its remotes and an
/// empty line; the matches are numbered from 1.
pub open spec fn with_result_lines(
    acc: Seq<Seq<SpanModel>>,
    results: Seq<MatchModel>,
) -> Seq<Seq<SpanModel>>
    decreases results.len(),
{
    if results.len() == 0 {
        acc
    } else {
        with_remote_lines(
            with_result_lines(acc, results.drop_last()).push(
                title_line(results.last(), results.len()),
            ),
            results.last().remotes,
        ).push(Seq::empty())
    }
}

/// The line that opens the report of `count` matches for `pattern`; it
/// ends in a line break of its own.
pub open spec fn header_line(count: nat, pattern: Seq<char>) -> Seq<SpanModel> {
    seq![
        span(Style::Plain, "Found "@),
        span(Style::GreenBold, decimal(count)),
        span(Style::Plain, " matching "@),
        span(Style::Plain, noun(count)),
        span(Style::Plain, " for '"@),
        span(Style::Cyan, pattern),
        span(Style::Plain, "':\n"@),
    ]
}

/// The report of `results` for `pattern`, line by line.
pub open spec fn report_lines(results: Seq<MatchModel>, pattern: Seq<char>) -> Seq<Seq<SpanModel>> {
    if results.len() == 0 {
        seq![seq![span(Style::YellowBold, nothing_found(pattern))]]
    } else {
        with_result_lines(seq![header_line(results.len(), pattern)], results)
    }
}

/// What closes the output after matches were shown while the scan ran.
pub open spec fn closing_spans(count: nat, pattern: Seq<char>) -> Seq<SpanModel> {
    if count == 0 {
        seq![span(Style::Plain, "\n"@), span(Style::YellowBold, nothing_found(pattern))]
    } else {
        seq![
            span(Style::Plain, "\n"@),
            span(Style::GreenBold, "Found"@),
            span(Style::Plain, " "@),
            span(Style::Plain, decimal(count) + " "@ + noun(count)),
            span(Style::Plain, " matching '"@),
            span(Style::Cyan, pattern),
            span(Style::Plain, "'"@),
        ]
    }
}

/// The process's exit code after `count` matches: 0 where there is a
/// match, else 1.
pub open spec fn exit_code_for(count: nat) -> int {
    if count == 0 {
        1
    } else {
        0
    }
}

/// The text `text` in the style `style`.
fn styled(style: Style, text: &str) -> (s: Span)
    ensures
        s@ == span(style, text@),
{
    Span { style, text: String::from_str(text) }
}

/// `repository` for one, `repositories` for any other number.
fn noun_text(count: usize) -> (s: &'static str)
    ensures
        s@ == noun(count as nat),
{
    if count == 1 {
        "repository"
    } else {
        "repositories"
    }
}

/// The text that says that nothing matches `pattern`.
fn nothing_found_text(pattern: &str) -> (s: String)
    ensures
        s@ == nothing_found(pattern@),
{
    let mut s = String::from_str("No repositories found matching '");
    s.append(pattern);
    s.append("'");
    s
}

/// A match as it is shown while the scan runs, as the `index`-th.
pub fn format_match(found: &MatchResult, index: usize) -> (spans: Vec<Span>)
    ensures
        spans_view(spans@) == match_spans(found@, index as nat),
{
    let ghost remotes = remotes_view(found.remotes@);
    let mut spans: Vec<Span> = Vec::new();
    spans.push(styled(Style::Plain, "\n"));
    spans.push(styled(Style::Yellow, decimal_text(index).as_str()));
    spans.push(styled(Style::Plain, ". "));
    spans.push(styled(Style::Bold, found.path.as_str()));
    let ghost head = spans_view(spans@);
    assert(head =~= seq![
        span(Style::Plain, "\n"@),
        span(Style::Yellow, decimal(index as nat)),
        span(Style::Plain, ". "@),
        span(Style::Bold, found@.path),
    ]);
    let mut i: usize = 0;
    assert(remotes.take(0) =~= Seq::<(Seq<char>, Seq<char>)>::empty());
    while i < found.remotes.len()
        invariant
            remotes == remotes_view(found.remotes@),
            i <= found.remotes@.len(),
            spans_view(spans@) == with_remote_spans(head, remotes.take(i as int)),
        decreases found.remotes@.len() - i,
    {
        let ghost before = spans_view(spans@);
        proof {
            assert(remotes.take(i + 1).drop_last() =~= remotes.take(i as int));
            assert(remotes.take(i + 1).last() == remotes[i as int]);
        }
        spans.push(styled(Style::Plain, "\n   "));
        spans.push(styled(Style::Blue, found.remotes[i].0.as_str()));
        spans.push(styled(Style::Plain, ": "));
        spans.push(styled(Style::Plain, found.remotes[i].1.as_str()));
        assert(spans_view(spans@) =~= before.push(span(Style::Plain, "\n   "@)).push(
            span(Style::Blue, remotes[i as int].0),
        ).push(span(Style::Plain, ": "@)).push(span(Style::Plain, remotes[i as int].1)));
        i += 1;
    }
    assert(remotes.take(i as int) =~= remotes);
    spans
}

/// The report of `results` for `pattern`, line by line: what is printed
/// once the scan is over where nothing was shown while it ran.
pub fn report(results: &Vec<MatchResult>, pattern: &str) -> (lines: Vec<Vec<Span>>)
    ensures
        lines_view(lines@) == report_lines(results_view(results@), pattern@),
{
    let ghost all = results_view(results@);
    let mut lines: Vec<Vec<Span>> = Vec::new();
    if results.len() == 0 {
        let mut line: Vec<Span> = Vec::new();
        line.push(styled(Style::YellowBold, nothing_found_text(pattern).as_str()));
        assert(spans_view(line@) =~= seq![span(Style::YellowBold, nothing_found(pattern@))]);
        lines.push(line);
        assert(lines_view(lines@) =~= report_lines(all, pattern@));
        return lines;
    }
    let mut header: Vec<Span> = Vec::new();
    header.push(styled(Style::Plain, "Found "));
    header.push(styled(Style::GreenBold, decimal_text(results.len()).as_str()));
    header.push(styled(Style::Plain, " matching "));
    header.push(styled(Style::Plain, noun_text(results.len())));
    header.push(styled(Style::Plain, " for '"));
    header.push(styled(Style::Cyan, pattern));
    header.push(styled(Style::Plain, "':\n"));
    assert(spans_view(header@) =~= header_line(all.len(), pattern@));
    lines.push(header);
    let ghost top = lines_view(lines@);
    assert(top =~= seq![header_line(all.len(), pattern@)]);
    assert(all.take(0) =~= Seq::<MatchModel>::empty());
    let mut k: usize = 0;
    while k < results.len()
        invariant
            all == results_view(results@),
            k <= results@.len(),
            lines_view(lines@) == with_result_lines(top, all.take(k as int)),
        decreases results@.len() - k,
    {
        let found = &results[k];
        let ghost remotes = remotes_view(found.remotes@);
        proof {
            assert(all.take(k + 1).drop_last() =~= all.take(k as int));
            assert(all.take(k + 1).last() == all[k as int]);
            assert(all[k as int].remotes == remotes);
        }
        let ghost before = lines_view(lines@);
        let mut title: Vec<Span> = Vec::new();
        title.push(styled(Style::Yellow, decimal_text(k + 1).as_str()));
        title.push(styled(Style::Plain, ". "));
        title.push(styled(Style::Bold, found.path.as_str()));
        assert(spans_view(title@) =~= title_line(all[k as int], (k + 1) as nat));
        lines.push(title);
        let ghost opened = lines_view(lines@);
        assert(opened =~= before.push(title_line(all[k as int], (k + 1) as nat)));
        assert(remotes.take(0) =~= Seq::<(Seq<char>, Seq<char>)>::empty());
        let mut i: usize = 0;
        while i < found.remotes.len()
            invariant
                remotes == remotes_view(found.remotes@),
                i <= found.remotes@.len(),
                lines_view(lines@) == with_remote_lines(opened, remotes.take(i as int)),
            decreases found.remotes@.len() - i,
        {
            let ghost had = lines_view(lines@);
            proof {
                assert(remotes.take(i + 1).drop_last() =~= remotes.take(i as int));
                assert(remotes.take(i + 1).last() == remotes[i as int]);
            }
            let mut line: Vec<Span> = Vec::new();
            line.push(styled(Style::Plain, "   "));
            line.push(styled(Style::Blue, found.remotes[i].0.as_str()));
            line.push(styled(Style::Plain, ": "));
            line.push(styled(Style::Plain, found.remotes[i].1.as_str()));
            assert(spans_view(line@) =~= remote_line(remotes[i as int]));
            lines.push(line);
            assert(lines_view(lines@) =~= had.push(remote_line(remotes[i as int])));
            i += 1;
        }
        assert(remotes.take(i as int) =~= remotes);
        let ghost listed = lines_view(lines@);
        let blank: Vec<Span> = Vec::new();
        assert(spans_view(blank@) =~= Seq::<SpanModel>::empty());
        lines.push(blank);
        assert(lines_view(lines@) =~= listed.push(Seq::<SpanModel>::empty()));
        k += 1;
    }
    assert(all.take(k as int) =~= all);
    lines
}

/// What closes the output after `count` matches for `pattern` were shown
/// while the scan ran.
pub fn closing(count: usize, pattern: &str) -> (spans: Vec<Span>)
    ensures
        spans_view(spans@) == closing_spans(count as nat, pattern@),
{
    let mut spans: Vec<Span> = Vec::new();
    spans.push(styled(Style::Plain, "\n"));
    if count == 0 {
        spans.push(styled(Style::YellowBold, nothing_found_text(pattern).as_str()));
        assert(spans_view(spans@) =~= closing_spans(count as nat, pattern@));
    } else {
        let mut counted = decimal_text(count);
        counted.append(" ");
        counted.append(noun_text(count));
        spans.push(styled(Style::GreenBold, "Found"));
        spans.push(styled(Style::Plain, " "));
        spans.push(styled(Style::Plain, counted.as_str()));
        spans.push(styled(Style::Plain, " matching '"));
        spans.push(styled(Style::Cyan, pattern));
        spans.push(styled(Style::Plain, "'"));
        assert(spans_view(spans@) =~= closing_spans(count as nat, pattern@));
    }
    spans
}

/// The process's exit code after `count` matches: 0 where there is a
/// match, else 1.
pub fn exit_code(count: usize) -> (code: i32)
    ensures
        code == exit_code_for(count as nat),
{
    if count == 0 {
        1
    } else {
        0
    }
}

} // verus!
