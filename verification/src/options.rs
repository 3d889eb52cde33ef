//! What the command line asks for.

use std::str::FromStr;
use vstd::prelude::*;

use crate::graph::EdgeDirection;
use crate::text::same_text;
use crate::visitor::{IncludeTests, Verbosity};

verus! {

broadcast use vstd::string::group_string_axioms;

/// The characters that a tree is drawn with.
#[derive(Debug, Clone, Copy, PartialEq, Eq, Structural)]
pub enum Charset {
    Utf8,
    Ascii,
}

/// What stands before a package in the list.
#[derive(Debug, Clone, Copy, PartialEq, Eq, Structural)]
pub enum Prefix {
    /// Nothing at all.
    Plain,
    /// The branches of a tree.
    Indent,
    /// The depth of the package in the tree.
    Depth,
}

impl Charset {
    /// The charset of a name.
    pub open spec fn named(name: Seq<char>) -> Option<Charset> {
        if name == "utf8"@ {
            Some(Charset::Utf8)
        } else if name == "ascii"@ {
            Some(Charset::Ascii)
        } else {
            None
        }
    }

    /// Reads the name of a charset.
    pub fn parse(s: &str) -> (r: Result<Charset, &'static str>)
        ensures
            match Charset::named(s@) {
                Some(c) => r == Ok::<Charset, &'static str>(c),
                None => r matches Err(e) && e@ == "invalid charset"@,
            },
    {
        if same_text(s, "utf8") {
            Ok(Charset::Utf8)
        } else if same_text(s, "ascii") {
            Ok(Charset::Ascii)
        } else {
            Err("invalid charset")
        }
    }
}

impl FromStr for Charset {
    type Err = &'static str;

    fn from_str(s: &str) -> (r: Result<Charset, &'static str>)
        ensures
            match Charset::named(s@) {
                Some(c) => r == Ok::<Charset, &'static str>(c),
                None => r matches Err(e) && e@ == "invalid charset"@,
            },
    {
        Charset::parse(s)
    }
}

/// The pieces that the branches of a tree are made of.
#[derive(Debug)]
pub struct Symbols {
    pub down: &'static str,
    pub tee: &'static str,
    pub ell: &'static str,
    pub right: &'static str,
}

/// The value of [`Symbols`].
pub struct SymbolsView {
    pub down: Seq<char>,
    pub tee: Seq<char>,
    pub ell: Seq<char>,
    pub right: Seq<char>,
}

impl Symbols {
    pub open spec fn value(self) -> SymbolsView {
        SymbolsView {
            down: self.down@,
            tee: self.tee@,
            ell: self.ell@,
            right: self.right@,
        }
    }
}

/// The pieces of a charset.
pub open spec fn charset_symbols(charset: Charset) -> SymbolsView {
    match charset {
        Charset::Utf8 => SymbolsView { down: "│"@, tee: "├"@, ell: "└"@, right: "─"@ },
        Charset::Ascii => SymbolsView { down: "|"@, tee: "|"@, ell: "`"@, right: "-"@ },
    }
}

/// The pieces of a charset.
pub fn symbols(charset: Charset) -> (r: Symbols)
    ensures
        r.value() == charset_symbols(charset),
{
    match charset {
        Charset::Utf8 => Symbols { down: "│", tee: "├", ell: "└", right: "─" },
        Charset::Ascii => Symbols { down: "|", tee: "|", ell: "`", right: "-" },
    }
}

/// What the command line says of the output.
#[derive(Debug)]
pub struct Flags {
    /// How often verbose output was asked for.
    pub verbose: u32,
    /// No output other than the tree.
    pub quiet: bool,
    /// Invert the tree direction.
    pub invert: bool,
    /// Display the dependencies as a list.
    pub no_indent: bool,
    /// Display the dependencies as a list, prefixed with the depth.
    pub prefix_depth: bool,
    /// Don't truncate dependencies that have already been displayed.
    pub all: bool,
    pub charset: Charset,
    /// Count unsafe usage in tests.
    pub include_tests: bool,
}

/// How the output is made.
#[derive(Debug)]
pub struct PrintConfig {
    /// Don't truncate dependencies that have already been displayed.
    pub all: bool,
    pub verbosity: Verbosity,
    pub direction: EdgeDirection,
    pub prefix: Prefix,
    pub symbols: Symbols,
    pub allow_partial_results: bool,
    pub include_tests: IncludeTests,
}

/// Works out how the output is made. A depth before each package is preferred to
/// none, and either to the branches of a tree.
pub fn print_config(flags: &Flags) -> (pc: PrintConfig)
    ensures
        pc.all == flags.all,
        pc.verbosity == (if flags.verbose == 0 {
            Verbosity::Normal
        } else {
            Verbosity::Verbose
        }),
        pc.direction == (if flags.invert {
            EdgeDirection::Incoming
        } else {
            EdgeDirection::Outgoing
        }),
        pc.prefix == (if flags.prefix_depth {
            Prefix::Depth
        } else if flags.no_indent {
            Prefix::Plain
        } else {
            Prefix::Indent
        }),
        pc.symbols.value() == charset_symbols(flags.charset),
        pc.allow_partial_results,
        pc.include_tests == (if flags.include_tests {
            IncludeTests::Yes
        } else {
            IncludeTests::No
        }),
{
    let verbosity = if flags.verbose == 0 {
        Verbosity::Normal
    } else {
        Verbosity::Verbose
    };
    let direction = if flags.invert {
        EdgeDirection::Incoming
    } else {
        EdgeDirection::Outgoing
    };
    let prefix = if flags.prefix_depth {
        Prefix::Depth
    } else if flags.no_indent {
        Prefix::Plain
    } else {
        Prefix::Indent
    };
    let include_tests = if flags.include_tests {
        IncludeTests::Yes
    } else {
        IncludeTests::No
    };
    PrintConfig {
        all: flags.all,
        verbosity,
        direction,
        prefix,
        symbols: symbols(flags.charset),
        allow_partial_results: true,
        include_tests,
    }
}

/// Whether anything but the tree is printed: the legend, the header, what a scan
/// reports, and the warnings.
pub fn prints_more_than_tree(flags: &Flags) -> (r: bool)
    ensures
        r == !flags.quiet,
{
    !flags.quiet
}

/// The target that dependencies are matched against: none where those for all
/// targets are wanted, else the one that is asked for, else the host.
pub fn selected_target<'a>(all_targets: bool, target: Option<&'a str>, host: &'a str) -> (r: Option<
    &'a str,
>)
    ensures
        r == (if all_targets {
            None
        } else {
            match target {
                Some(t) => Some(t),
                None => Some(host),
            }
        }),
{
    if all_targets {
        None
    } else {
        match target {
            Some(t) => Some(t),
            None => Some(host),
        }
    }
}

/// Law: the character sets have one name each, and no other text names one.
pub proof fn lemma_charset_names(name: Seq<char>)
    ensures
        Charset::named(name) == Some(Charset::Utf8) <==> name == "utf8"@,
        Charset::named(name) == Some(Charset::Ascii) <==> name == "ascii"@,
{
    reveal_strlit("utf8");
    reveal_strlit("ascii");
    assert("utf8"@.len() != "ascii"@.len());
}

}
