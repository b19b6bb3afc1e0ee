//! The settings of the editor.

use crate::error::EditError;
use vstd::prelude::*;

verus! {

/// How a file is shown.
#[derive(Copy, Clone, Debug, PartialEq, Eq, Structural)]
pub enum OpenMode {
    /// Decided from the file's name and its first bytes.
    Auto,
    Text,
    Binary,
}

impl Default for OpenMode {
    fn default() -> (mode: Self)
        ensures
            mode == OpenMode::Auto,
    {
        OpenMode::Auto
    }
}

/// `0.05` as a single-precision number.
pub const MIN_MEM_RATIO: u32 = 0x3D4C_CCCD;

/// `0.3` as a single-precision number.
pub const DEFAULT_MEM_RATIO: u32 = 0x3E99_999A;

/// `0.7` as a single-precision number.
pub const CAPPED_MEM_RATIO: u32 = 0x3F33_3333;

/// `0.8` as a single-precision number.
pub const MAX_MEM_RATIO: u32 = 0x3F4C_CCCD;

/// The settings.
///
/// The share of memory for the cache is kept as the bit pattern of a
/// single-precision number. Bit patterns of numbers from zero up are ordered as
/// the numbers are, and those of negative numbers and of NaN are larger than
/// those of all finite ones, so ranges of shares are ranges of bit patterns.
#[derive(Clone, Debug)]
pub struct EditorConfig {
    /// How many bytes a block of the file on disk has.
    pub block_size: usize,
    /// The share of memory that cached blocks may take.
    pub mem_ratio: u32,
    pub prefetch_ahead: usize,
    pub prefetch_behind: usize,
    pub default_mode: OpenMode,
    /// How many edits can be undone.
    pub undo_limit: usize,
    pub hex_bytes_per_row: u8,
    pub tab_width: u8,
    pub log_file: Option<String>,
}

/// What is said of a block size out of range.
pub open spec fn block_size_message() -> Seq<char> {
    "block_size 必须在 4KB ~ 16MB 之间"@
}

/// What is said of a share of memory out of range.
pub open spec fn mem_ratio_message() -> Seq<char> {
    "mem_ratio 必须在 0.05 ~ 0.8 之间"@
}

impl EditorConfig {
    /// The settings where none are given.
    pub open spec fn is_default(&self) -> bool {
        &&& self.block_size == 256 * 1024
        &&& self.mem_ratio == DEFAULT_MEM_RATIO
        &&& self.prefetch_ahead == 4
        &&& self.prefetch_behind == 1
        &&& self.default_mode == OpenMode::Auto
        &&& self.undo_limit == 1000
        &&& self.hex_bytes_per_row == 16
        &&& self.tab_width == 4
        &&& self.log_file is None
    }
}

impl Default for EditorConfig {
    fn default() -> (cfg: Self)
        ensures
            cfg.is_default(),
    {
        Self {
            block_size: 256 * 1024,
            mem_ratio: DEFAULT_MEM_RATIO,
            prefetch_ahead: 4,
            prefetch_behind: 1,
            default_mode: OpenMode::Auto,
            undo_limit: 1000,
            hex_bytes_per_row: 16,
            tab_width: 4,
            log_file: None,
        }
    }
}

impl EditorConfig {
    /// The defaults with the given values in their place. A share of memory
    /// above `0.7` becomes `0.7`. A block size that is out of range is named
    /// first.
    pub fn from_cli(
        block_size_kb: Option<u32>,
        mem_ratio: Option<u32>,
        mode: Option<OpenMode>,
    ) -> (r: Result<Self, EditError>)
        ensures
            ({
                let size_ok = block_size_kb matches Some(kb) ==> 4 <= kb <= 16384;
                let ratio_ok = mem_ratio matches Some(m) ==> MIN_MEM_RATIO <= m <= MAX_MEM_RATIO;
                &&& r is Ok <==> size_ok && ratio_ok
                &&& r matches Err(e) ==> e matches EditError::InvalidConfig(m) && m@ == (
                if !size_ok {
                    block_size_message()
                } else {
                    mem_ratio_message()
                })
            }),
            r matches Ok(cfg) ==> {
                &&& cfg.block_size == (match block_size_kb {
                    Some(kb) => kb * 1024,
                    None => 256 * 1024int,
                })
                &&& cfg.mem_ratio == (match mem_ratio {
                    Some(m) => if m > CAPPED_MEM_RATIO {
                        CAPPED_MEM_RATIO
                    } else {
                        m
                    },
                    None => DEFAULT_MEM_RATIO,
                })
                &&& cfg.default_mode == (match mode {
                    Some(m) => m,
                    None => OpenMode::Auto,
                })
                &&& cfg.prefetch_ahead == 4
                &&& cfg.prefetch_behind == 1
                &&& cfg.undo_limit == 1000
                &&& cfg.hex_bytes_per_row == 16
                &&& cfg.tab_width == 4
                &&& cfg.log_file is None
            },
    {
        let mut cfg = Self::default();
        if let Some(kb) = block_size_kb {
            if kb < 4 || kb > 16384 {
                return Err(
                    EditError::InvalidConfig("block_size 必须在 4KB ~ 16MB 之间".to_string()),
                );
            }
            cfg.block_size = kb as usize * 1024;
        }
        if let Some(m) = mem_ratio {
            if m < MIN_MEM_RATIO || m > MAX_MEM_RATIO {
                return Err(
                    EditError::InvalidConfig("mem_ratio 必须在 0.05 ~ 0.8 之间".to_string()),
                );
            }
            cfg.mem_ratio = m;
        }
        if cfg.mem_ratio > CAPPED_MEM_RATIO {
            cfg.mem_ratio = CAPPED_MEM_RATIO;
        }
        if let Some(m) = mode {
            cfg.default_mode = m;
        }
        Ok(cfg)
    }
}

} // verus!
