//! Light and dark palettes.
use vstd::prelude::*;

use crate::repo::ChangeStatus;
use crate::settings::ThemeSetting;
use crate::syntax::Style;

verus! {

/// Whether to draw in dark colors: as the setting says, else as the system does.
pub fn is_dark(setting: ThemeSetting, system_dark: bool) -> (dark: bool)
    ensures
        dark == (match setting {
            ThemeSetting::System => system_dark,
            ThemeSetting::Light => false,
            ThemeSetting::Dark => true,
        }),
{
    match setting {
        ThemeSetting::System => system_dark,
        ThemeSetting::Light => false,
        ThemeSetting::Dark => true,
    }
}

/// The colors of a window, as red, green and blue bytes.
#[derive(Debug, Clone, Copy, PartialEq, Eq, Structural)]
pub struct Theme {
    pub dark: bool,
    pub bg: u32,
    pub fg: u32,
    pub muted: u32,
    pub border: u32,
    pub sidebar_bg: u32,
    pub file_header_bg: u32,
    pub hunk_bg: u32,
    pub hunk_fg: u32,
    pub added_bg: u32,
    pub added_gutter_bg: u32,
    pub removed_bg: u32,
    pub removed_gutter_bg: u32,
    pub accent: u32,
    pub active_row_bg: u32,
    pub selection_bg: u32,
    pub error: u32,
    pub added: u32,
    pub modified: u32,
    pub deleted: u32,
    pub renamed: u32,
    /// How opaque the selection is, in percent.
    pub selection_percent: u32,
}

/// The dark palette.
pub open spec fn dark_colors() -> Theme {
    Theme {
        dark: true,
        bg: 0x0d1117,
        fg: 0xe6edf3,
        muted: 0x7d8590,
        border: 0x30363d,
        sidebar_bg: 0x010409,
        file_header_bg: 0x161b22,
        hunk_bg: 0x121d2f,
        hunk_fg: 0x9198a1,
        added_bg: 0x12261e,
        added_gutter_bg: 0x1b4721,
        removed_bg: 0x25171c,
        removed_gutter_bg: 0x542426,
        accent: 0x2f81f7,
        active_row_bg: 0x1f2937,
        selection_bg: 0x388bfd,
        error: 0xf85149,
        added: 0x3fb950,
        modified: 0xd29922,
        deleted: 0xf85149,
        renamed: 0x58a6ff,
        selection_percent: 22,
    }
}

/// The light palette.
pub open spec fn light_colors() -> Theme {
    Theme {
        dark: false,
        bg: 0xffffff,
        fg: 0x1f2328,
        muted: 0x656d76,
        border: 0xd0d7de,
        sidebar_bg: 0xf6f8fa,
        file_header_bg: 0xf6f8fa,
        hunk_bg: 0xddf4ff,
        hunk_fg: 0x59636e,
        added_bg: 0xe6ffec,
        added_gutter_bg: 0xccffd8,
        removed_bg: 0xffebe9,
        removed_gutter_bg: 0xffd7d5,
        accent: 0x0969da,
        active_row_bg: 0xeaeef2,
        selection_bg: 0x0969da,
        error: 0xd1242f,
        added: 0x1a7f37,
        modified: 0x9a6700,
        deleted: 0xd1242f,
        renamed: 0x0969da,
        selection_percent: 14,
    }
}

/// The color of a syntax style.
pub open spec fn syntax_color(dark: bool, style: Style) -> u32 {
    if dark {
        match style {
            Style::Attribute => 0x79c0ff,
            Style::Comment => 0x8b949e,
            Style::Constant => 0x79c0ff,
            Style::Function => 0xd2a8ff,
            Style::Keyword => 0xff7b72,
            Style::Label => 0x79c0ff,
            Style::Number => 0x79c0ff,
            Style::Operator => 0xe6edf3,
            Style::Property => 0x79c0ff,
            Style::Punctuation => 0xc9d1d9,
            Style::String => 0xa5d6ff,
            Style::Escape => 0x79c0ff,
            Style::Tag => 0x7ee787,
            Style::Type => 0xffa657,
            Style::Variable => 0xffa657,
            Style::Heading => 0x79c0ff,
            Style::Link => 0xa5d6ff,
        }
    } else {
        match style {
            Style::Attribute => 0x0550ae,
            Style::Comment => 0x6e7781,
            Style::Constant => 0x0550ae,
            Style::Function => 0x8250df,
            Style::Keyword => 0xcf222e,
            Style::Label => 0x0550ae,
            Style::Number => 0x0550ae,
            Style::Operator => 0x1f2328,
            Style::Property => 0x0550ae,
            Style::Punctuation => 0x24292f,
            Style::String => 0x0a3069,
            Style::Escape => 0x0550ae,
            Style::Tag => 0x116329,
            Style::Type => 0x953800,
            Style::Variable => 0x953800,
            Style::Heading => 0x0550ae,
            Style::Link => 0x0a3069,
        }
    }
}

impl Theme {
    /// The palette for a dark or light window.
    pub fn for_appearance(dark: bool) -> (theme: Theme)
        ensures
            theme == (if dark {
                dark_colors()
            } else {
                light_colors()
            }),
    {
        if dark {
            Theme {
                dark: true,
                bg: 0x0d1117,
                fg: 0xe6edf3,
                muted: 0x7d8590,
                border: 0x30363d,
                sidebar_bg: 0x010409,
                file_header_bg: 0x161b22,
                hunk_bg: 0x121d2f,
                hunk_fg: 0x9198a1,
                added_bg: 0x12261e,
                added_gutter_bg: 0x1b4721,
                removed_bg: 0x25171c,
                removed_gutter_bg: 0x542426,
                accent: 0x2f81f7,
                active_row_bg: 0x1f2937,
                selection_bg: 0x388bfd,
                error: 0xf85149,
                added: 0x3fb950,
                modified: 0xd29922,
                deleted: 0xf85149,
                renamed: 0x58a6ff,
                selection_percent: 22,
            }
        } else {
            Theme {
                dark: false,
                bg: 0xffffff,
                fg: 0x1f2328,
                muted: 0x656d76,
                border: 0xd0d7de,
                sidebar_bg: 0xf6f8fa,
                file_header_bg: 0xf6f8fa,
                hunk_bg: 0xddf4ff,
                hunk_fg: 0x59636e,
                added_bg: 0xe6ffec,
                added_gutter_bg: 0xccffd8,
                removed_bg: 0xffebe9,
                removed_gutter_bg: 0xffd7d5,
                accent: 0x0969da,
                active_row_bg: 0xeaeef2,
                selection_bg: 0x0969da,
                error: 0xd1242f,
                added: 0x1a7f37,
                modified: 0x9a6700,
                deleted: 0xd1242f,
                renamed: 0x0969da,
                selection_percent: 14,
            }
        }
    }

    /// The color of a syntax style.
    pub fn syntax(&self, style: Style) -> (color: u32)
        ensures
            color == syntax_color(self.dark, style),
    {
        if self.dark {
            match style {
                Style::Attribute => 0x79c0ff,
                Style::Comment => 0x8b949e,
                Style::Constant => 0x79c0ff,
                Style::Function => 0xd2a8ff,
                Style::Keyword => 0xff7b72,
                Style::Label => 0x79c0ff,
                Style::Number => 0x79c0ff,
                Style::Operator => 0xe6edf3,
                Style::Property => 0x79c0ff,
                Style::Punctuation => 0xc9d1d9,
                Style::String => 0xa5d6ff,
                Style::Escape => 0x79c0ff,
                Style::Tag => 0x7ee787,
                Style::Type => 0xffa657,
                Style::Variable => 0xffa657,
                Style::Heading => 0x79c0ff,
                Style::Link => 0xa5d6ff,
            }
        } else {
            match style {
                Style::Attribute => 0x0550ae,
                Style::Comment => 0x6e7781,
                Style::Constant => 0x0550ae,
                Style::Function => 0x8250df,
                Style::Keyword => 0xcf222e,
                Style::Label => 0x0550ae,
                Style::Number => 0x0550ae,
                Style::Operator => 0x1f2328,
                Style::Property => 0x0550ae,
                Style::Punctuation => 0x24292f,
                Style::String => 0x0a3069,
                Style::Escape => 0x0550ae,
                Style::Tag => 0x116329,
                Style::Type => 0x953800,
                Style::Variable => 0x953800,
                Style::Heading => 0x0550ae,
                Style::Link => 0x0a3069,
            }
        }
    }

    /// The letter and color of a change.
    pub fn status(&self, status: ChangeStatus) -> (shown: (&'static str, u32))
        ensures
            shown.0@ == crate::diff_rows::badge_of(status),
            shown.1 == (match status {
                ChangeStatus::Added => self.added,
                ChangeStatus::Modified | ChangeStatus::TypeChanged => self.modified,
                ChangeStatus::Deleted | ChangeStatus::Conflicted => self.deleted,
                ChangeStatus::Renamed | ChangeStatus::Copied => self.renamed,
            }),
    {
        let color = match status {
            ChangeStatus::Added => self.added,
            ChangeStatus::Modified | ChangeStatus::TypeChanged => self.modified,
            ChangeStatus::Deleted | ChangeStatus::Conflicted => self.deleted,
            ChangeStatus::Renamed | ChangeStatus::Copied => self.renamed,
        };
        (crate::diff_rows::badge(status), color)
    }
}

} // verus!
