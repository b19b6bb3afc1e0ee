//! The status bar and the command line.

use crate::cache::CacheStats;
use crate::config::OpenMode;
use crate::editor::Editor;
use crate::text;
use crate::tui::line::{Line, Style};
use vstd::prelude::*;

verus! {

/// What the status bar and the command line show.
pub struct StatusState {
    pub mode_name: &'static str,
    pub message: Option<String>,
    pub message_is_error: bool,
    pub command_buffer: String,
    /// Whether a command is being typed.
    pub in_command: bool,
}

/// What the status bar and the command line show, with texts as sequences.
pub struct StatusModel {
    pub mode_name: Seq<char>,
    pub message: Option<Seq<char>>,
    pub message_is_error: bool,
    pub command_buffer: Seq<char>,
    pub in_command: bool,
}

impl View for StatusState {
    type V = StatusModel;

    open spec fn view(&self) -> StatusModel {
        StatusModel {
            mode_name: self.mode_name@,
            message: match self.message {
                Some(text) => Some(text@),
                None => None,
            },
            message_is_error: self.message_is_error,
            command_buffer: self.command_buffer@,
            in_command: self.in_command,
        }
    }
}

impl StatusModel {
    /// What is shown at first.
    pub open spec fn initial() -> StatusModel {
        StatusModel {
            mode_name: "NORMAL"@,
            message: None,
            message_is_error: false,
            command_buffer: Seq::empty(),
            in_command: false,
        }
    }
}

impl Default for StatusState {
    fn default() -> (s: Self)
        ensures
            s@ == StatusModel::initial(),
    {
        Self {
            mode_name: "NORMAL",
            message: None,
            message_is_error: false,
            command_buffer: String::new(),
            in_command: false,
        }
    }
}

/// What a mode is called.
pub open spec fn mode_label(mode: OpenMode) -> Seq<char> {
    match mode {
        OpenMode::Text => "Text"@,
        OpenMode::Binary => "Hex"@,
        OpenMode::Auto => "Auto"@,
    }
}

/// The text of the status bar.
pub open spec fn status_text(
    ed: Editor,
    stats: CacheStats,
    status: StatusModel,
    hit_rate: Seq<char>,
) -> Seq<char> {
    "["@ + status.mode_name + "] ["@ + mode_label(ed.mode) + "] ["@ + (if ed.read_only {
        "RO"@
    } else {
        "RW"@
    }) + "] Pos "@ + text::dec(ed.cursor_byte as nat) + "/"@ + text::dec(ed.file_size as nat)
        + " Block "@ + text::dec(
        (ed.cursor_byte as int / ed.config.block_size as int) as nat,
    ) + "/"@ + text::dec(ed.block_count as nat) + " Cache "@ + text::dec(stats.size_blocks as nat)
        + "/"@ + text::dec(stats.capacity_blocks as nat) + " Hit "@ + hit_rate + "% Enc "@
        + ed.text_encoding.spec_name()
}

/// The status bar, with `hit_rate` for how many of a hundred requests found
/// their block in the cache.
pub fn render_status_bar(
    editor: &Editor,
    stats: &CacheStats,
    status: &StatusState,
    hit_rate: &str,
) -> (line: Line)
    requires
        editor.config.block_size > 0,
    ensures
        line@ == seq![(status_text(*editor, *stats, status@, hit_rate@), Style::Cyan)],
{
    let mut s = "[".to_string();
    s.append(status.mode_name);
    s.append("] [");
    s.append(
        match editor.mode {
            OpenMode::Text => "Text",
            OpenMode::Binary => "Hex",
            OpenMode::Auto => "Auto",
        },
    );
    s.append("] [");
    s.append(if editor.read_only { "RO" } else { "RW" });
    s.append("] Pos ");
    text::push_dec(&mut s, editor.cursor_byte);
    s.append("/");
    text::push_dec(&mut s, editor.file_size);
    s.append(" Block ");
    text::push_dec(&mut s, editor.cursor_byte / editor.config.block_size as u64);
    s.append("/");
    text::push_dec(&mut s, editor.block_count);
    s.append(" Cache ");
    text::push_dec(&mut s, stats.size_blocks as u64);
    s.append("/");
    text::push_dec(&mut s, stats.capacity_blocks as u64);
    s.append(" Hit ");
    s.append(hit_rate);
    s.append("% Enc ");
    s.append(editor.text_encoding.name());
    Line::styled(s, Style::Cyan)
}

/// What the command line shows: the command that is being typed, else the
/// message.
pub open spec fn mini_buffer(status: StatusModel) -> (Seq<char>, Style) {
    if status.in_command {
        (":"@ + status.command_buffer, Style::Plain)
    } else {
        match status.message {
            Some(text) => (
                text,
                if status.message_is_error {
                    Style::Red
                } else {
                    Style::Yellow
                },
            ),
            None => (""@, Style::Plain),
        }
    }
}

/// The command line.
pub fn render_mini_buffer(status: &StatusState) -> (line: Line)
    ensures
        line@ == seq![mini_buffer(status@)],
{
    if status.in_command {
        let mut s = ":".to_string();
        s.append(status.command_buffer.as_str());
        return Line::styled(s, Style::Plain);
    }
    match &status.message {
        Some(text) => {
            let style = if status.message_is_error { Style::Red } else { Style::Yellow };
            Line::styled(text.clone(), style)
        },
        None => Line::styled("".to_string(), Style::Plain),
    }
}

} // verus!
