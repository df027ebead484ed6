//! The text the program prints: numbered input lines, line-number labels, and the
//! emitted documents joined into one text.

use vstd::prelude::*;
use crate::numerals::{decimal, right_aligned, right_aligned_decimal};

verus! {

/// The input line at 0-based `index`, as echoed: its 1-based number right-aligned in
/// three columns, a space, a `|`, and the line.
pub open spec fn numbered_line_text(index: nat, line: Seq<char>) -> Seq<char> {
    right_aligned(decimal(index + 1), 3) + seq![' ', '|'] + line
}

/// The label before a highlighted line: the line number right-aligned in five columns,
/// then a space.
pub open spec fn line_number_label_text(number: nat) -> Seq<char> {
    right_aligned(decimal(number), 5) + seq![' ']
}

/// The documents, each followed by a newline, one after another.
pub open spec fn documents_text(documents: Seq<Seq<char>>) -> Seq<char>
    decreases documents.len(),
{
    if documents.len() == 0 {
        Seq::empty()
    } else {
        documents_text(documents.drop_last()) + documents.last() + seq!['\n']
    }
}

/// The input line at 0-based `index`, numbered for echoing (see [`numbered_line_text`]).
pub fn numbered_line(index: usize, line: &str) -> (text: String)
    requires
        index < usize::MAX,
    ensures
        text@ == numbered_line_text(index as nat, line@),
{
    let mut text = right_aligned_decimal((index + 1) as u64, 3);
    text.append(" |");
    text.append(line);
    proof {
        reveal_strlit(" |");
    }
    text
}

/// The label written before highlighted line `number` (see [`line_number_label_text`]).
pub fn line_number_label(number: usize) -> (label: String)
    ensures
        label@ == line_number_label_text(number as nat),
{
    let mut label = right_aligned_decimal(number as u64, 5);
    label.append(" ");
    proof {
        reveal_strlit(" ");
    }
    label
}

/// The emitted documents joined into one text, each followed by a newline.
pub fn join_documents(documents: &Vec<String>) -> (text: String)
    ensures
        text@ == documents_text(documents@.map_values(|d: String| d@)),
{
    let ghost docs = documents@.map_values(|d: String| d@);
    let mut text = String::new();
    for i in 0..documents.len()
        invariant
            docs == documents@.map_values(|d: String| d@),
            text@ == documents_text(docs.take(i as int)),
    {
        let ghost before = text@;
        text.append(documents[i].as_str());
        text.append("\n");
        proof {
            reveal_strlit("\n");
            assert(docs.take(i + 1).drop_last() =~= docs.take(i as int));
            assert(docs.take(i + 1).last() == documents@[i as int]@);
            assert(text@ =~= documents_text(docs.take(i + 1)));
        }
    }
    assert(docs.take(documents.len() as int) =~= docs);
    text
}

/// The lines of a text as syntect highlights them with its default syntax for the file
/// extension `syntax_extension` and its default theme `theme_name`, each with the
/// 24-bit terminal escapes of its styles (backgrounds too when `with_background`), or
/// `None` where the syntax or theme is missing or highlighting fails.
pub uninterp spec fn highlighted_lines(
    syntax_extension: Seq<char>,
    theme_name: Seq<char>,
    with_background: bool,
    lines: Seq<Seq<char>>,
) -> Option<Seq<Seq<char>>>;

/// Highlights the lines of a text, one after another, for a 24-bit terminal.
///
/// Loads syntect's default syntaxes (without newlines) and themes, finds the syntax
/// for `syntax_extension` and the theme `theme_name`, runs
/// `HighlightLines::highlight_line` on each line in order (the highlighter carries its
/// state from line to line), and turns each line's styled ranges into terminal escapes
/// with `syntect::util::as_24_bit_terminal_escaped`. The defaults are compiled into
/// syntect, so the escaped lines depend on the arguments alone; they are named, not
/// written out.
#[verifier::external_body]
pub fn highlight_lines(
    lines: &Vec<String>,
    syntax_extension: &str,
    theme_name: &str,
    with_background: bool,
) -> (escaped: Option<Vec<String>>)
    ensures
        escaped is Some <==> highlighted_lines(
            syntax_extension@,
            theme_name@,
            with_background,
            lines@.map_values(|l: String| l@),
        ) is Some,
        escaped matches Some(e) ==> e@.map_values(|l: String| l@) == highlighted_lines(
            syntax_extension@,
            theme_name@,
            with_background,
            lines@.map_values(|l: String| l@),
        )->0,
{
    let syntax_set = syntect::parsing::SyntaxSet::load_defaults_nonewlines();
    let theme_set = syntect::highlighting::ThemeSet::load_defaults();
    let syntax = syntax_set.find_syntax_by_extension(syntax_extension)?;
    let mut highlighter = syntect::easy::HighlightLines::new(syntax, theme_set.themes.get(theme_name)?);
    lines.iter().map(|line| highlighter.highlight_line(line, &syntax_set).ok().map(|ranges| syntect::util::as_24_bit_terminal_escaped(&ranges[..], with_background))).collect()
}

/// The syntax that output is highlighted with: YAML's (`yml` files).
pub open spec fn yaml_extension() -> Seq<char> {
    seq!['y', 'm', 'l']
}

/// The theme that output is highlighted with: "Solarized (dark)".
pub open spec fn output_theme() -> Seq<char> {
    seq!['S', 'o', 'l', 'a', 'r', 'i', 'z', 'e', 'd', ' ', '(', 'd', 'a', 'r', 'k', ')']
}

/// Highlighted lines as printed: each paired with the label of its 1-based number.
pub open spec fn labelled_lines_text(escaped: Seq<Seq<char>>) -> Seq<(Seq<char>, Seq<char>)> {
    Seq::new(escaped.len(), |i: int| (line_number_label_text((i + 1) as nat), escaped[i]))
}

/// Each escaped line paired with the label of its 1-based line number.
pub fn label_lines(escaped: &Vec<String>) -> (labelled: Vec<(String, String)>)
    ensures
        labelled@.map_values(|p: (String, String)| (p.0@, p.1@)) == labelled_lines_text(
            escaped@.map_values(|l: String| l@),
        ),
{
    let mut labelled: Vec<(String, String)> = Vec::new();
    for i in 0..escaped.len()
        invariant
            labelled.len() == i,
            forall|j: int|
                0 <= j < i ==> (#[trigger] labelled@[j]).0@ == line_number_label_text(
                    (j + 1) as nat,
                ) && labelled@[j].1@ == escaped@[j]@,
    {
        let label = line_number_label(i + 1);
        labelled.push((label, escaped[i].clone()));
    }
    assert(labelled@.map_values(|p: (String, String)| (p.0@, p.1@)) =~= labelled_lines_text(
        escaped@.map_values(|l: String| l@),
    ));
    labelled
}

/// The lines of a YAML text highlighted for a terminal, with YAML's syntax, the
/// "Solarized (dark)" theme and backgrounds, and labelled with their 1-based numbers;
/// or `None` where highlighting fails.
pub fn highlighted_output(lines: &Vec<String>) -> (labelled: Option<Vec<(String, String)>>)
    ensures
        labelled is Some <==> highlighted_lines(
            yaml_extension(),
            output_theme(),
            true,
            lines@.map_values(|l: String| l@),
        ) is Some,
        labelled matches Some(v) ==> v@.map_values(|p: (String, String)| (p.0@, p.1@))
            == labelled_lines_text(
            highlighted_lines(
                yaml_extension(),
                output_theme(),
                true,
                lines@.map_values(|l: String| l@),
            )->0,
        ),
{
    let extension = "yml";
    let theme = "Solarized (dark)";
    proof {
        reveal_strlit("yml");
        reveal_strlit("Solarized (dark)");
        assert(extension@ =~= yaml_extension());
        assert(theme@ =~= output_theme());
    }
    match highlight_lines(lines, extension, theme, true) {
        Some(escaped) => Some(label_lines(&escaped)),
        None => None,
    }
}

} // verus!
