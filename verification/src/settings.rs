//! User settings that the review depends on.
use vstd::prelude::*;

use crate::text::{copy_text, push_text};

verus! {

#[derive(Debug, Clone, Copy, PartialEq, Eq, Structural)]
pub enum ThemeSetting {
    System,
    Light,
    Dark,
}

impl Default for ThemeSetting {
    /// The system's theme.
    fn default() -> (theme: Self)
        ensures
            theme == ThemeSetting::System,
    {
        ThemeSetting::System
    }
}

#[derive(Debug, Clone, Copy, PartialEq, Eq, Structural)]
pub enum DiffLayout {
    Unified,
    Split,
}

impl Default for DiffLayout {
    /// One column.
    fn default() -> (layout: Self)
        ensures
            layout == DiffLayout::Unified,
    {
        DiffLayout::Unified
    }
}

/// What came of reading the settings file.
pub enum Found {
    Missing,
    /// Why it could not be read.
    Unreadable(String),
    /// Why it holds no settings.
    Invalid(String),
    /// It holds settings; their font size is one that text can be shown in, or not.
    Parsed { font_size_fits: bool },
}

/// Which settings to use.
#[derive(Debug, Clone, Copy, PartialEq, Eq, Structural)]
pub enum Using {
    Defaults,
    /// The file's, but for the font size.
    DefaultFontSize,
    File,
}

/// Which settings to use after reading the file.
pub open spec fn settings_used(found: Found) -> Using {
    match found {
        Found::Parsed { font_size_fits } => if font_size_fits {
            Using::File
        } else {
            Using::DefaultFontSize
        },
        _ => Using::Defaults,
    }
}

/// What to tell the user of the settings file, if anything.
pub open spec fn settings_problem(path: Seq<char>, found: Found) -> Option<Seq<char>> {
    match found {
        Found::Missing => None,
        Found::Unreadable(cause) => Some(path + ": "@ + cause@),
        Found::Invalid(cause) => Some(path + " is invalid ("@ + cause@ + "); using defaults"@),
        Found::Parsed { font_size_fits } => if font_size_fits {
            None
        } else {
            Some(path + ": font_size must be between 6 and 48"@)
        },
    }
}

/// Which settings to use after reading the file at `path`, and what to tell the user of it. A
/// missing file is the defaults; an invalid one is the defaults plus a message.
pub fn choose_settings(path: &str, found: Found) -> (choice: (Using, Option<String>))
    ensures
        choice.0 == settings_used(found),
        choice.1.deep_view() == settings_problem(path@, found),
{
    let mut problem = copy_text(path);
    match found {
        Found::Missing => (Using::Defaults, None),
        Found::Unreadable(cause) => {
            push_text(&mut problem, ": ");
            push_text(&mut problem, cause.as_str());
            (Using::Defaults, Some(problem))
        },
        Found::Invalid(cause) => {
            push_text(&mut problem, " is invalid (");
            push_text(&mut problem, cause.as_str());
            push_text(&mut problem, "); using defaults");
            (Using::Defaults, Some(problem))
        },
        Found::Parsed { font_size_fits: true } => (Using::File, None),
        Found::Parsed { font_size_fits: false } => {
            push_text(&mut problem, ": font_size must be between 6 and 48");
            (Using::DefaultFontSize, Some(problem))
        },
    }
}

} // verus!
