//! The command-line arguments and the formatting options they resolve to.

use vstd::prelude::*;

verus! {

/// The formatting options that are in force while the files are processed.
#[derive(Clone, Copy, Debug, PartialEq, Eq, Structural)]
pub struct FormatOptions {
    /// Number every output line.
    pub number_all: bool,
    /// Number the non-empty output lines only. Where it is set,
    /// `number_all` has no effect.
    pub number_nonblank: bool,
    /// Put `$` at the end of every output line.
    pub show_ends: bool,
    /// Write one empty line where the input has several in a row.
    pub squeeze_blank: bool,
    /// Write `^I` for a tab character.
    pub show_tabs: bool,
}

impl FormatOptions {
    /// Holds where `number_all` is off whenever `number_nonblank` is on.
    pub open spec fn is_resolved(self) -> bool {
        self.number_nonblank ==> !self.number_all
    }

    /// These options with `number_all` forced off where `number_nonblank`
    /// is set.
    pub open spec fn resolved(self) -> FormatOptions {
        FormatOptions {
            number_all: self.number_all && !self.number_nonblank,
            number_nonblank: self.number_nonblank,
            show_ends: self.show_ends,
            squeeze_blank: self.squeeze_blank,
            show_tabs: self.show_tabs,
        }
    }

    /// The options with every flag off: the input is written as it is.
    pub fn plain() -> (opts: FormatOptions)
        ensures
            opts == (FormatOptions {
                number_all: false,
                number_nonblank: false,
                show_ends: false,
                squeeze_blank: false,
                show_tabs: false,
            }),
    {
        FormatOptions {
            number_all: false,
            number_nonblank: false,
            show_ends: false,
            squeeze_blank: false,
            show_tabs: false,
        }
    }

    /// Forces `number_all` off where `number_nonblank` is set.
    pub fn resolve(self) -> (opts: FormatOptions)
        ensures
            opts == self.resolved(),
            opts.is_resolved(),
    {
        FormatOptions {
            number_all: self.number_all && !self.number_nonblank,
            number_nonblank: self.number_nonblank,
            show_ends: self.show_ends,
            squeeze_blank: self.squeeze_blank,
            show_tabs: self.show_tabs,
        }
    }
}

/// The arguments of one invocation: the flags as they were given, and the
/// paths of the files to concatenate, in order.
#[derive(Debug)]
pub struct CatArgs {
    /// `-A`: the same as `-e` and `-t` together.
    pub show_all: bool,
    /// `-b`: number the non-empty output lines; overrides `-n`.
    pub number_nonblank: bool,
    /// `-n`: number all output lines.
    pub number: bool,
    /// `-e`: show `$` at the end of each line.
    pub show_ends: bool,
    /// `-s`: suppress repeated empty output lines.
    pub squeeze_blank: bool,
    /// `-t`: show tab characters as `^I`.
    pub show_tabs: bool,
    /// The paths of the input files.
    pub value: Vec<String>,
}

impl CatArgs {
    /// The formatting options that the flags stand for.
    pub open spec fn format_options(&self) -> FormatOptions {
        FormatOptions {
            number_all: self.number && !self.number_nonblank,
            number_nonblank: self.number_nonblank,
            show_ends: self.show_ends || self.show_all,
            squeeze_blank: self.squeeze_blank,
            show_tabs: self.show_tabs || self.show_all,
        }
    }

    /// Resolves the flags to formatting options.
    pub fn options(&self) -> (opts: FormatOptions)
        ensures
            opts == self.format_options(),
            opts.is_resolved(),
    {
        FormatOptions {
            number_all: self.number && !self.number_nonblank,
            number_nonblank: self.number_nonblank,
            show_ends: self.show_ends || self.show_all,
            squeeze_blank: self.squeeze_blank,
            show_tabs: self.show_tabs || self.show_all,
        }
    }
}

} // verus!
