//! Compression presets, levels and thread counts.

use vstd::prelude::*;

use crate::error::{error, Error, ErrorKind, Failure};
use crate::text;

verus! {

/// Default zstd level.
pub const DEFAULT_LEVEL: i32 = 12;

/// Compression quality presets mapped to zstd levels.
#[derive(Debug, Clone, Copy, PartialEq, Eq, Structural)]
pub enum Preset {
    Fast,
    Balanced,
    Max,
}

/// The level of a preset.
pub open spec fn level_of(preset: Preset) -> i32 {
    match preset {
        Preset::Fast => 3,
        Preset::Balanced => 12,
        Preset::Max => 19,
    }
}

/// The preset called `name`, whatever the case of its ASCII letters.
pub open spec fn named(name: Seq<char>) -> Option<Preset> {
    let small = text::lower(name);
    if small == "fast"@ {
        Some(Preset::Fast)
    } else if small == "balanced"@ {
        Some(Preset::Balanced)
    } else if small == "max"@ {
        Some(Preset::Max)
    } else {
        None
    }
}

impl Preset {
    /// zstd compression level for this preset.
    pub fn level(self) -> (level: i32)
        ensures
            level == level_of(self),
    {
        match self {
            Preset::Fast => 3,
            Preset::Balanced => 12,
            Preset::Max => 19,
        }
    }

    /// Parse from a command-line string (`fast`, `balanced`, `max`).
    pub fn parse(s: &str) -> (r: Result<Preset, Error>)
        ensures
            match named(s@) {
                Some(preset) => r == Ok::<Preset, Error>(preset),
                None => r matches Err(e) && e@ == (Failure {
                    kind: ErrorKind::UnknownPreset,
                    text: "unknown preset '"@ + text::lower(s@)
                        + "'; expected fast|balanced|max"@,
                }),
            },
    {
        let small: String = text::lower_text(s);
        if text::same_text(small.as_str(), "fast") {
            Ok(Preset::Fast)
        } else if text::same_text(small.as_str(), "balanced") {
            Ok(Preset::Balanced)
        } else if text::same_text(small.as_str(), "max") {
            Ok(Preset::Max)
        } else {
            Err(
                error(
                    ErrorKind::UnknownPreset,
                    "unknown preset '".to_owned().concat(small.as_str()).concat(
                        "'; expected fast|balanced|max",
                    ),
                ),
            )
        }
    }
}

/// The level to use.
pub open spec fn level_for(level: Option<i32>, preset: Option<Preset>) -> i32 {
    match level {
        Some(l) => l,
        None => match preset {
            Some(p) => level_of(p),
            None => DEFAULT_LEVEL,
        },
    }
}

/// The level to use: a given level goes before a preset, and a preset before
/// the default.
pub fn resolve_level(level: Option<i32>, preset: Option<Preset>) -> (chosen: i32)
    ensures
        chosen == match level {
            Some(l) => l,
            None => match preset {
                Some(p) => level_of(p),
                None => DEFAULT_LEVEL,
            },
        },
        chosen == level_for(level, preset),
{
    match level {
        Some(l) => l,
        None => match preset {
            Some(p) => p.level(),
            None => DEFAULT_LEVEL,
        },
    }
}

/// The number of threads to use.
pub open spec fn threads_for(requested: u32, available: Option<usize>) -> int {
    if requested > 0 {
        requested as int
    } else {
        match available {
            Some(n) => if n < 8 {
                n as int
            } else {
                8
            },
            None => 1,
        }
    }
}

/// Resolve a worker thread count: `0` means the available processors, at most
/// 8, or 1 where their number is not known.
pub fn resolve_threads(requested: u32, available: Option<usize>) -> (threads: u32)
    ensures
        threads == if requested > 0 {
            requested as int
        } else {
            match available {
                Some(n) => if n < 8 {
                    n as int
                } else {
                    8
                },
                None => 1,
            }
        },
        threads == threads_for(requested, available),
{
    if requested > 0 {
        return requested;
    }
    match available {
        Some(n) => {
            if n < 8 {
                n as u32
            } else {
                8
            }
        },
        None => 1,
    }
}

/// Presets are ordered by level, the default being the middle one, and are
/// found by name in any case of letters.
pub proof fn presets_are_ordered(name: Seq<char>)
    ensures
        level_of(Preset::Fast) < level_of(Preset::Balanced) < level_of(Preset::Max),
        level_of(Preset::Fast) == 3,
        level_of(Preset::Balanced) == DEFAULT_LEVEL,
        level_of(Preset::Max) == 19,
        named("fast"@) == Some(Preset::Fast),
        named("balanced"@) == Some(Preset::Balanced),
        named("max"@) == Some(Preset::Max),
        named(text::lower(name)) == named(name),
{
    assert(text::lower(text::lower(name)) == text::lower(name));
    reveal_strlit("fast");
    reveal_strlit("balanced");
    reveal_strlit("max");
    assert(text::lower("fast"@) == "fast"@);
    assert(text::lower("balanced"@) == "balanced"@);
    assert(text::lower("max"@) == "max"@);
    assert("fast"@.len() == 4);
    assert("balanced"@.len() == 8);
    assert("max"@.len() == 3);
}

/// A level that is given is used whatever the preset; without one the preset
/// decides, and without either the level is that of the balanced preset.
pub proof fn given_level_wins(level: i32, preset: Option<Preset>, chosen: Preset)
    ensures
        level_for(Some(level), preset) == level,
        level_for(None, Some(chosen)) == level_of(chosen),
        level_for(None, None) == level_of(Preset::Balanced),
{
}

/// A number of threads that is given is used as it is; else there are as many as
/// processors, but never more than 8, and one where their number is not known.
pub proof fn threads_are_bounded(requested: u32, processors: usize)
    ensures
        requested > 0 ==> threads_for(requested, Some(processors)) == requested && threads_for(
            requested,
            None,
        ) == requested,
        threads_for(0, Some(processors)) <= 8,
        threads_for(0, Some(processors)) <= processors,
        threads_for(0, Some(processors)) == 8 || threads_for(0, Some(processors)) == processors,
        threads_for(0, None) == 1,
{
}

} // verus!
