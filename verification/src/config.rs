//! The program's settings, and whether its output is coloured.

use vstd::prelude::*;

verus! {

/// The settings of one run: the input file (none for standard input) and whether
/// output is to stay monochrome.
pub struct AppConfig {
    /// Input file or "--" to read from stdin
    pub input: Option<String>,
    /// Enable monochrome output (no syntax highlighting)
    pub monochrome_output: bool,
    /// Dotted key patterns that select what is printed
    pub key_patterns: Vec<String>,
}

/// Whether standard output is a terminal.
///
/// Calls `atty::is(atty::Stream::Stdout)`, which asks the operating system about the
/// process's standard output; what it answers depends on how the process was started,
/// so nothing is stated of the result.
#[verifier::external_body]
fn stdout_is_terminal() -> bool {
    atty::is(atty::Stream::Stdout)
}

/// Whether to colour output, given the monochrome setting and whether standard output
/// is a terminal: only when not monochrome and writing to a terminal.
pub fn colorize_for(monochrome_output: bool, stdout_is_tty: bool) -> (colorize: bool)
    ensures
        colorize == (!monochrome_output && stdout_is_tty),
{
    !monochrome_output && stdout_is_tty
}

impl AppConfig {
    /// Whether the input is read from standard input: when no input file is given, or
    /// the input is `--`.
    pub fn reads_stdin(&self) -> (stdin: bool)
        ensures
            stdin == (self.input is None || self.input->0@ == seq!['-', '-']),
    {
        match &self.input {
            None => true,
            Some(path) => {
                let p = path.as_str();
                let is_dashes = p.unicode_len() == 2 && p.get_char(0) == '-' && p.get_char(1)
                    == '-';
                proof {
                    if is_dashes {
                        assert(p@ =~= seq!['-', '-']);
                    }
                }
                is_dashes
            },
        }
    }

    /// The key patterns, as string slices, in order.
    pub fn include_patterns(&self) -> (patterns: Vec<&str>)
        ensures
            patterns@.map_values(|p: &str| p@) == self.key_patterns@.map_values(|s: String| s@),
    {
        let mut patterns: Vec<&str> = Vec::new();
        for i in 0..self.key_patterns.len()
            invariant
                patterns.len() == i,
                forall|j: int| 0 <= j < i ==> (#[trigger] patterns@[j])@ == self.key_patterns@[j]@,
        {
            patterns.push(self.key_patterns[i].as_str());
        }
        assert(patterns@.map_values(|p: &str| p@) =~= self.key_patterns@.map_values(|s: String| s@));
        patterns
    }

    /// Whether to colour output: never when monochrome output was asked for; otherwise
    /// exactly when standard output is a terminal.
    pub fn should_colorize(&self) -> (colorize: bool)
        ensures
            self.monochrome_output ==> !colorize,
    {
        if self.monochrome_output {
            return false;
        }
        colorize_for(self.monochrome_output, stdout_is_terminal())
    }
}

} // verus!
