//! What a command does that was typed, from its text to the session and the editor.

use crate::block::BlockId;
use crate::command::{InputMode, KeyCode, KeyEvent, ViewOp};
use crate::config::OpenMode;
use crate::editor::Editor;
use crate::key_laws;
use crate::session;
use crate::session::{Asked, Outcome, SavePurpose, SessionModel};
use crate::text;
use vstd::prelude::*;

verus! {

/// `o` is what comes of the return key behind a command, of which `line` is the text
/// without the white space around it.
pub open spec fn command_entered(s: SessionModel, ed: Editor, line: Seq<char>, o: Outcome) -> bool {
    &&& s.input_mode == InputMode::Command
    &&& text::trimmed(s.status.command_buffer) == line
    &&& exists|key: KeyEvent, rows: usize|
        key.code == KeyCode::Enter && #[trigger] session::key_step(s, ed, key, rows, o)
}

/// Nothing of the editor changes.
pub open spec fn editor_stays(ed: Editor, o: Outcome) -> bool {
    key_laws::only_cursor(ed, o) && o.cursor == ed.cursor_byte
}

/// There is a message that is no error.
pub open spec fn told(o: Outcome) -> bool {
    o.session.status.message is Some && !o.session.status.message_is_error
}

/// There is a message that is an error.
pub open spec fn warned(o: Outcome) -> bool {
    o.session.status.message is Some && o.session.status.message_is_error
}

/// The message stays as it was.
pub open spec fn silent(s: SessionModel, o: Outcome) -> bool {
    o.session.status.message == s.status.message && o.session.status.message_is_error
        == s.status.message_is_error
}

/// What the commands are made of.
proof fn lemma_words()
    ensures
        "w"@ == seq!['w'],
        "q"@ == seq!['q'],
        "q!"@ == seq!['q', '!'],
        "wq"@ == seq!['w', 'q'],
        "x"@ == seq!['x'],
        "h"@ == seq!['h'],
        "help"@ == seq!['h', 'e', 'l', 'p'],
        "info"@ == seq!['i', 'n', 'f', 'o'],
        "ro"@ == seq!['r', 'o'],
        "rw"@ == seq!['r', 'w'],
        "e"@ == seq!['e'],
        "w "@ == seq!['w', ' '],
        "goto "@ == seq!['g', 'o', 't', 'o', ' '],
        "mode "@ == seq!['m', 'o', 'd', 'e', ' '],
        "enc "@ == seq!['e', 'n', 'c', ' '],
        "0x"@ == seq!['0', 'x'],
        "0X"@ == seq!['0', 'X'],
        "w"@.len() == 1 && "w"@[0] == 'w',
        "q"@.len() == 1 && "q"@[0] == 'q',
        "q!"@.len() == 2 && "q!"@[0] == 'q' && "q!"@[1] == '!',
        "wq"@.len() == 2 && "wq"@[0] == 'w' && "wq"@[1] == 'q',
        "x"@.len() == 1 && "x"@[0] == 'x',
        "h"@.len() == 1 && "h"@[0] == 'h',
        "help"@.len() == 4 && "help"@[0] == 'h' && "help"@[1] == 'e',
        "info"@.len() == 4 && "info"@[0] == 'i' && "info"@[1] == 'n',
        "ro"@.len() == 2 && "ro"@[0] == 'r' && "ro"@[1] == 'o',
        "rw"@.len() == 2 && "rw"@[0] == 'r' && "rw"@[1] == 'w',
        "e"@.len() == 1 && "e"@[0] == 'e',
{
    reveal_strlit("w");
    reveal_strlit("q");
    reveal_strlit("q!");
    reveal_strlit("wq");
    reveal_strlit("x");
    reveal_strlit("h");
    reveal_strlit("help");
    reveal_strlit("info");
    reveal_strlit("ro");
    reveal_strlit("rw");
    reveal_strlit("e");
    reveal_strlit("w ");
    reveal_strlit("goto ");
    reveal_strlit("mode ");
    reveal_strlit("enc ");
    reveal_strlit("0x");
    reveal_strlit("0X");
    assert("w"@ =~= seq!['w']);
    assert("q"@ =~= seq!['q']);
    assert("q!"@ =~= seq!['q', '!']);
    assert("wq"@ =~= seq!['w', 'q']);
    assert("x"@ =~= seq!['x']);
    assert("h"@ =~= seq!['h']);
    assert("help"@ =~= seq!['h', 'e', 'l', 'p']);
    assert("info"@ =~= seq!['i', 'n', 'f', 'o']);
    assert("ro"@ =~= seq!['r', 'o']);
    assert("rw"@ =~= seq!['r', 'w']);
    assert("e"@ =~= seq!['e']);
    assert("w "@ =~= seq!['w', ' ']);
    assert("goto "@ =~= seq!['g', 'o', 't', 'o', ' ']);
    assert("mode "@ =~= seq!['m', 'o', 'd', 'e', ' ']);
    assert("enc "@ =~= seq!['e', 'n', 'c', ' ']);
    assert("0x"@ =~= seq!['0', 'x']);
    assert("0X"@ =~= seq!['0', 'X']);
}

/// Every command, known or not, ends its typing: keys are commands again, and
/// nothing is typed yet.
pub proof fn law_command_ends_typing(s: SessionModel, ed: Editor, line: Seq<char>, o: Outcome)
    requires
        command_entered(s, ed, line, o),
    ensures
        key_laws::commanding(o.session),
        o.session.status.command_buffer.len() == 0,
        o.session.status.mode_name == "NORMAL"@,
{
}

/// `w` asks for the edits to be appended to the log, `w` and a path for the document
/// to be saved there, and `wq` and `x` for it to be saved to its file and the
/// session to end with that. A document that may not be changed is not saved, and
/// there is an error.
pub proof fn law_save_commands(s: SessionModel, ed: Editor, line: Seq<char>, o: Outcome)
    requires
        command_entered(s, ed, line, o),
    ensures
        ({
            let alone = line == seq!['w'];
            let elsewhere = line.len() > 2 && line[0] == 'w' && line[1] == ' ';
            let leaving = line == seq!['w', 'q'] || line == seq!['x'];
            &&& alone || elsewhere || leaving ==> {
                &&& editor_stays(ed, o)
                &&& o.session.should_quit == s.should_quit
                &&& ed.read_only ==> {
                    &&& o.asked is Nothing
                    &&& warned(o)
                    &&& o.session.status.message == Some(
                        if leaving {
                            "只读模式，:rw 切换为可写后再保存退出"@
                        } else {
                            "只读模式，:rw 切换为可写后再保存"@
                        },
                    )
                }
                &&& !ed.read_only ==> silent(s, o)
            }
            &&& alone && !ed.read_only ==> o.asked is SaveIncremental
            &&& elsewhere && !ed.read_only ==> o.asked == Asked::SaveAs {
                path: text::trimmed(line.skip(2)),
                purpose: SavePurpose::Keep,
            }
            &&& leaving && !ed.read_only ==> o.asked == Asked::SaveAs {
                path: ed.file_path@,
                purpose: SavePurpose::Quit,
            }
        }),
{
    lemma_words();
    if line.len() > 2 && line[0] == 'w' && line[1] == ' ' {
        assert(line.subrange(0, 2) =~= seq!['w', ' ']);
    }
}

/// `q!` ends the session. `q` ends it where no block has edits that are stored
/// nowhere and the log holds none; with edits in the log it asks for them to be
/// folded into the file, and with others there is an error and the session goes
/// on.
pub proof fn law_quit_commands(s: SessionModel, ed: Editor, line: Seq<char>, o: Outcome)
    requires
        command_entered(s, ed, line, o),
    ensures
        line == seq!['q'] || line == seq!['q', '!'] ==> editor_stays(ed, o),
        line == seq!['q', '!'] ==> o.session.should_quit && o.asked is Nothing && silent(s, o),
        line == seq!['q'] ==> ({
            let unsaved = exists|id: u64| #[trigger]
                ed.cache@.has(id) && ed.cache@.blocks[id].unsaved();
            let logged = ed.cache@.wal is Some && exists|id: BlockId| #[trigger]
                ed.cache@.wal->0@.dom().contains(id);
            &&& unsaved ==> {
                &&& o.session.should_quit == s.should_quit
                &&& o.asked is Nothing
                &&& warned(o)
                &&& o.session.status.message == Some(
                    "有未保存修改，使用 :q! 强制退出 或 :w 保存"@,
                )
            }
            &&& !unsaved && logged ==> {
                &&& o.session.should_quit == s.should_quit
                &&& o.asked == Asked::SaveAs { path: ed.file_path@, purpose: SavePurpose::Merge }
                &&& silent(s, o)
            }
            &&& !unsaved && !logged ==> {
                &&& o.session.should_quit
                &&& o.asked is Nothing
                &&& silent(s, o)
            }
        }),
{
    lemma_words();
    if ed.cache@.wal is Some {
        let logged = ed.cache@.wal->0@.dom();
        if forall|id: BlockId| !#[trigger] logged.contains(id) {
            assert(logged =~= Set::<BlockId>::empty());
        }
    }
}

/// `ro` makes the document read-only. `rw` and `e` make it writable, and ask for the
/// log that edits need.
pub proof fn law_lock_commands(s: SessionModel, ed: Editor, line: Seq<char>, o: Outcome)
    requires
        command_entered(s, ed, line, o),
    ensures
        line == seq!['r', 'o'] ==> {
            &&& o.read_only
            &&& o.asked is Nothing
            &&& told(o)
            &&& o.session.status.message == Some("已切换为只读"@)
        },
        line == seq!['r', 'w'] || line == seq!['e'] ==> !o.read_only && o.asked is EnsureWal
            && silent(s, o),
        line == seq!['r', 'o'] || line == seq!['r', 'w'] || line == seq!['e'] ==> {
            &&& o.cursor == ed.cursor_byte
            &&& o.mode == ed.mode
            &&& o.encoding == ed.text_encoding.spec_name()
            &&& o.session.should_quit == s.should_quit
        },
        o.read_only != ed.read_only ==> line == seq!['r', 'o'] || line == seq!['r', 'w'] || line
            == seq!['e'],
{
    lemma_words();
}

/// `goto` and a number puts the cursor at that byte, or at the end of the document
/// where that is before, and shows it. The number is decimal, or hexadecimal behind
/// `0x`; what is no number stands for the start.
pub proof fn law_goto_command(s: SessionModel, ed: Editor, line: Seq<char>, o: Outcome)
    requires
        command_entered(s, ed, line, o),
        line.len() > 5,
        line.take(5) == seq!['g', 'o', 't', 'o', ' '],
    ensures
        ({
            let what = text::trimmed(line.skip(5));
            let prefixed = what.len() >= 2 && what[0] == '0' && (what[1] == 'x' || what[1] == 'X');
            let number = if prefixed {
                text::parsed(what.skip(2), 16)
            } else {
                text::parsed(what, 10)
            };
            let byte = match number {
                Some(n) => n,
                None => 0,
            };
            &&& o.cursor == (if byte <= ed.file_size {
                byte
            } else {
                ed.file_size
            })
            &&& o.asked == Asked::View(seq![ViewOp::ShowCursor])
            &&& key_laws::only_cursor(ed, o)
            &&& silent(s, o)
            &&& o.session.should_quit == s.should_quit
        }),
{
    lemma_words();
    assert(line.subrange(0, 5) =~= line.take(5));
    assert(line.take(5)[0] == 'g' && line.take(5)[4] == ' ');
    assert(line[0] == 'g');
    let what = text::trimmed(line.skip(5));
    if what.len() >= 2 {
        assert(what.subrange(0, 2) =~= seq![what[0], what[1]]);
        assert(what.subrange(0, 2)[0] == what[0] && what.subrange(0, 2)[1] == what[1]);
    }
}

/// `mode` and `text` shows the document as text, `mode` and `hex` or `binary` shows
/// its bytes; any other mode is an error and nothing changes. The screen is brought
/// to the cursor.
pub proof fn law_mode_command(s: SessionModel, ed: Editor, line: Seq<char>, o: Outcome)
    requires
        command_entered(s, ed, line, o),
        line.len() > 5,
        line.take(5) == seq!['m', 'o', 'd', 'e', ' '],
    ensures
        ({
            let what = text::trimmed(line.skip(5));
            let shown = if what == "text"@ {
                Some(OpenMode::Text)
            } else if what == "hex"@ || what == "binary"@ {
                Some(OpenMode::Binary)
            } else {
                None
            };
            &&& o.cursor == ed.cursor_byte
            &&& o.read_only == ed.read_only
            &&& o.encoding == ed.text_encoding.spec_name()
            &&& o.session.should_quit == s.should_quit
            &&& shown matches Some(mode) ==> {
                &&& o.mode == mode
                &&& silent(s, o)
                &&& o.asked matches Asked::View(ops) && ops.len() > 0 && ops.last()
                    == ViewOp::ShowCursor && forall|i: int|
                    0 <= i < ops.len() ==> !(#[trigger] ops[i] is MoveLines)
            }
            &&& shown is None ==> {
                &&& o.mode == ed.mode
                &&& o.asked is Nothing
                &&& warned(o)
                &&& o.session.status.message == Some("未知命令: "@ + ("unknown mode: "@ + what))
            }
        }),
{
    lemma_words();
    assert(line.subrange(0, 5) =~= line.take(5));
    assert(line.take(5)[0] == 'm' && line.take(5)[4] == ' ');
    assert(line[0] == 'm');
    assert("text"@ != "hex"@ && "text"@ != "binary"@) by {
        reveal_strlit("text");
        reveal_strlit("hex");
        reveal_strlit("binary");
        assert("text"@.len() == 4 && "hex"@.len() == 3 && "binary"@.len() == 6);
    }
}

/// `enc` and a name that is known sets the encoding of the text and says so; another
/// name is an error and nothing changes.
pub proof fn law_encoding_command(s: SessionModel, ed: Editor, line: Seq<char>, o: Outcome)
    requires
        command_entered(s, ed, line, o),
        line.len() > 4,
        line.take(4) == seq!['e', 'n', 'c', ' '],
    ensures
        ({
            let what = text::trimmed(line.skip(4));
            let name = if what == "utf-8"@ || what == "utf8"@ {
                Some("UTF-8"@)
            } else if what == "gbk"@ {
                Some("GBK"@)
            } else if what == "gb18030"@ {
                Some("gb18030"@)
            } else {
                None
            };
            &&& o.cursor == ed.cursor_byte
            &&& o.mode == ed.mode
            &&& o.read_only == ed.read_only
            &&& o.asked is Nothing
            &&& o.session.should_quit == s.should_quit
            &&& name matches Some(n) ==> {
                &&& o.encoding == n
                &&& told(o)
                &&& o.session.status.message == Some("编码切换为: "@ + what)
            }
            &&& name is None ==> {
                &&& o.encoding == ed.text_encoding.spec_name()
                &&& warned(o)
                &&& o.session.status.message == Some("未知编码: "@ + what)
            }
        }),
{
    lemma_words();
    assert(line.subrange(0, 4) =~= line.take(4));
    assert(line.take(4)[0] == 'e' && line.take(4)[1] == 'n' && line.take(4)[3] == ' ');
    assert(line[0] == 'e' && line[1] == 'n');
    assert("utf-8"@ != "gbk"@ && "utf8"@ != "gbk"@ && "utf-8"@ != "gb18030"@ && "utf8"@
        != "gb18030"@ && "gbk"@ != "gb18030"@) by {
        reveal_strlit("utf-8");
        reveal_strlit("utf8");
        reveal_strlit("gbk");
        reveal_strlit("gb18030");
        assert("utf-8"@.len() == 5 && "utf8"@.len() == 4 && "gbk"@.len() == 3 && "gb18030"@.len()
            == 7);
    }
}

/// `info` says how long the document is and of how many blocks, how many blocks are
/// in the cache and fit into it, and how often it was asked and had to let one go.
/// `h` and `help` name the commands. Nothing else changes.
pub proof fn law_telling_commands(s: SessionModel, ed: Editor, line: Seq<char>, o: Outcome)
    requires
        command_entered(s, ed, line, o),
        line == seq!['i', 'n', 'f', 'o'] || line == seq!['h'] || line == seq!['h', 'e', 'l', 'p'],
    ensures
        editor_stays(ed, o),
        o.asked is Nothing,
        o.session.should_quit == s.should_quit,
        told(o),
        line == seq!['i', 'n', 'f', 'o'] ==> o.session.status.message == Some(
            "文件: "@ + text::dec(ed.file_size as nat) + " | 块: "@ + text::dec(
                ed.block_count as nat,
            ) + " | 缓存: "@ + text::dec(ed.cache@.blocks.len()) + "/"@ + text::dec(
                ed.cache@.capacity as nat,
            ) + " | 命中: "@ + text::dec(ed.cache@.hits as nat) + " | 遗漏: "@ + text::dec(
                ed.cache@.misses as nat,
            ) + " | 淘汰: "@ + text::dec(ed.cache@.evictions as nat),
        ),
        line != seq!['i', 'n', 'f', 'o'] ==> o.session.status.message == Some(
            ":w 保存 | :q 退出 | :q! 强制退出 | :wq 保存退出 | :goto <offset> | :mode text/hex | :enc <name> | i 插入 | u 撤销 | Ctrl+R 重做 | f 下页 | b 上页 | Esc 退出"@,
        ),
{
    lemma_words();
}

/// What is no command is an error that repeats it, and nothing else changes.
pub proof fn law_unknown_command(s: SessionModel, ed: Editor, line: Seq<char>, o: Outcome)
    requires
        command_entered(s, ed, line, o),
        ({
            &&& line != "w"@ && line != "q"@ && line != "q!"@ && line != "wq"@ && line != "x"@
            &&& line != "h"@ && line != "help"@ && line != "info"@
            &&& line != "ro"@ && line != "rw"@ && line != "e"@
            &&& !(line.len() >= 2 && line.take(2) == "w "@)
            &&& !(line.len() >= 5 && line.take(5) == "goto "@)
            &&& !(line.len() >= 5 && line.take(5) == "mode "@)
            &&& !(line.len() >= 4 && line.take(4) == "enc "@)
        }),
    ensures
        editor_stays(ed, o),
        o.asked is Nothing,
        o.session.should_quit == s.should_quit,
        warned(o),
        o.session.status.message == Some("未知命令: "@ + line),
{
    lemma_words();
    if line.len() >= 2 {
        assert(line.subrange(0, 2) =~= line.take(2));
    }
    if line.len() >= 4 {
        assert(line.subrange(0, 4) =~= line.take(4));
    }
    if line.len() >= 5 {
        assert(line.subrange(0, 5) =~= line.take(5));
    }
}

} // verus!
