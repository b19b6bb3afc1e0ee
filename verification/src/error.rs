//! The errors of the library and their messages.

use crate::text;
use vstd::prelude::*;

verus! {

/// A failed edit of the document, or a rejected setting.
#[derive(Debug)]
pub enum EditError {
    /// A byte offset beyond the end of the file: the offset, then the file size.
    OffsetOutOfRange(u64, u64),
    /// A failed operation on one block's contents.
    GapBuffer(String),
    /// There is no edit left to undo.
    NothingToUndo,
    /// There is no undone edit left to redo.
    NothingToRedo,
    /// A setting outside its permitted range.
    InvalidConfig(String),
}

impl EditError {
    /// The message shown for the error.
    pub open spec fn message(&self) -> Seq<char> {
        match self {
            EditError::OffsetOutOfRange(offset, size) => "偏移 "@ + text::dec(*offset as nat)
                + " 超过文件大小 "@ + text::dec(*size as nat),
            EditError::GapBuffer(detail) => "GapBuffer: "@ + detail@,
            EditError::NothingToUndo => "撤销栈空"@,
            EditError::NothingToRedo => "重做栈空"@,
            EditError::InvalidConfig(detail) => "配置错误: "@ + detail@,
        }
    }

    pub fn to_string(&self) -> (text: String)
        ensures
            text@ == self.message(),
    {
        match self {
            EditError::OffsetOutOfRange(offset, size) => {
                let mut out = "偏移 ".to_string();
                text::push_dec(&mut out, *offset);
                out.append(" 超过文件大小 ");
                text::push_dec(&mut out, *size);
                out
            },
            EditError::GapBuffer(detail) => {
                let mut out = "GapBuffer: ".to_string();
                out.append(detail.as_str());
                out
            },
            EditError::NothingToUndo => "撤销栈空".to_string(),
            EditError::NothingToRedo => "重做栈空".to_string(),
            EditError::InvalidConfig(detail) => {
                let mut out = "配置错误: ".to_string();
                out.append(detail.as_str());
                out
            },
        }
    }
}

/// A failure to read, write or save.
#[derive(Debug)]
pub enum IoError {
    /// A failure that the system reported, in its words.
    StdIo(String),
    /// A block behind the last: its number, then how many blocks there are.
    BlockOutOfRange(u64, u64),
    /// The file ended early.
    ShortRead { expected: usize, actual: usize },
    SaveFailed(String),
    /// The path may not be written to.
    PermissionDenied(String),
}

impl IoError {
    /// The message shown for the error.
    pub open spec fn message(&self) -> Seq<char> {
        match self {
            IoError::StdIo(detail) => "IO error: "@ + detail@,
            IoError::BlockOutOfRange(id, count) => "块 "@ + text::dec(*id as nat) + " 越界 (总 "@
                + text::dec(*count as nat) + " 块)"@,
            IoError::ShortRead { expected, actual } => "短读: 期望 "@ + text::dec(*expected as nat)
                + "B, 只读 "@ + text::dec(*actual as nat) + "B"@,
            IoError::SaveFailed(detail) => "保存失败: "@ + detail@,
            IoError::PermissionDenied(path) => "无权限写入: "@ + path@,
        }
    }

    pub fn to_string(&self) -> (text: String)
        ensures
            text@ == self.message(),
    {
        match self {
            IoError::StdIo(detail) => {
                let mut out = "IO error: ".to_string();
                out.append(detail.as_str());
                out
            },
            IoError::BlockOutOfRange(id, count) => {
                let mut out = "块 ".to_string();
                text::push_dec(&mut out, *id);
                out.append(" 越界 (总 ");
                text::push_dec(&mut out, *count);
                out.append(" 块)");
                out
            },
            IoError::ShortRead { expected, actual } => {
                let mut out = "短读: 期望 ".to_string();
                text::push_dec(&mut out, *expected as u64);
                out.append("B, 只读 ");
                text::push_dec(&mut out, *actual as u64);
                out.append("B");
                out
            },
            IoError::SaveFailed(detail) => {
                let mut out = "保存失败: ".to_string();
                out.append(detail.as_str());
                out
            },
            IoError::PermissionDenied(path) => {
                let mut out = "无权限写入: ".to_string();
                out.append(path.as_str());
                out
            },
        }
    }
}

/// A block that the cache cannot hand out or give up.
#[derive(Debug)]
pub enum CacheError {
    CannotEvict,
    /// The block that is pinned.
    BlockPinned(u64),
}

impl CacheError {
    /// The message shown for the error.
    pub open spec fn message(&self) -> Seq<char> {
        match self {
            CacheError::CannotEvict => "无法淘汰：所有块均为 dirty 或编辑中"@,
            CacheError::BlockPinned(id) => "块 "@ + text::dec(*id as nat) + " 被 pin，无法淘汰"@,
        }
    }

    pub fn to_string(&self) -> (text: String)
        ensures
            text@ == self.message(),
    {
        match self {
            CacheError::CannotEvict => "无法淘汰：所有块均为 dirty 或编辑中".to_string(),
            CacheError::BlockPinned(id) => {
                let mut out = "块 ".to_string();
                text::push_dec(&mut out, *id);
                out.append(" 被 pin，无法淘汰");
                out
            },
        }
    }
}

/// A failed edit says what failed: an offset and the size that it is beyond, what went
/// wrong in a block, that there is nothing to undo or to redo, or which setting is
/// out of range.
pub proof fn law_edit_errors_say_what_failed(e: EditError)
    ensures
        match e {
            EditError::OffsetOutOfRange(offset, size) => e.message() == "偏移 "@ + text::dec(
                offset as nat,
            ) + " 超过文件大小 "@ + text::dec(size as nat),
            EditError::GapBuffer(detail) => e.message() == "GapBuffer: "@ + detail@,
            EditError::NothingToUndo => e.message() == "撤销栈空"@,
            EditError::NothingToRedo => e.message() == "重做栈空"@,
            EditError::InvalidConfig(detail) => e.message() == "配置错误: "@ + detail@,
        },
{
}

/// A failure to read or write says what failed: in the words of the system, or which
/// block of how many, how many bytes were expected and how many came, or the path.
pub proof fn law_io_errors_say_what_failed(e: IoError)
    ensures
        match e {
            IoError::StdIo(detail) => e.message() == "IO error: "@ + detail@,
            IoError::BlockOutOfRange(id, count) => e.message() == "块 "@ + text::dec(id as nat)
                + " 越界 (总 "@ + text::dec(count as nat) + " 块)"@,
            IoError::ShortRead { expected, actual } => e.message() == "短读: 期望 "@ + text::dec(
                expected as nat,
            ) + "B, 只读 "@ + text::dec(actual as nat) + "B"@,
            IoError::SaveFailed(detail) => e.message() == "保存失败: "@ + detail@,
            IoError::PermissionDenied(path) => e.message() == "无权限写入: "@ + path@,
        },
{
}

} // verus!
