//! Which log messages are let through: a default level, overridden for the modules
//! whose paths end with a given pattern.

use super::{level_rank, Level};
use vstd::prelude::*;
use vstd::string::StringSliceAdditionalSpecFns;

verus! {

/// True iff `pattern` is a suffix of `s`.
pub open spec fn has_suffix(s: Seq<u8>, pattern: Seq<u8>) -> bool {
    pattern.len() <= s.len() && s.subrange(s.len() - pattern.len(), s.len() as int) == pattern
}

/// The least level let through for a module: the default, overridden by each setting
/// in turn whose pattern ends the module's path (so the last matching one decides).
pub open spec fn level_setting(
    default_level: Level,
    settings: Seq<(&str, Level)>,
    path: Seq<u8>,
) -> Level
    decreases settings.len(),
{
    if settings.len() == 0 {
        default_level
    } else {
        let base = level_setting(default_level, settings.drop_last(), path);
        if has_suffix(path, settings.last().0.spec_bytes()) {
            settings.last().1
        } else {
            base
        }
    }
}

/// True iff the bytes of `s` end with those of `pattern`.
pub fn ends_with(s: &str, pattern: &str) -> (r: bool)
    ensures
        r == has_suffix(s.spec_bytes(), pattern.spec_bytes()),
{
    let sb = s.as_bytes();
    let pb = pattern.as_bytes();
    if pb.len() > sb.len() {
        return false;
    }
    let offset = sb.len() - pb.len();
    let mut i: usize = 0;
    while i < pb.len()
        invariant
            sb@ == s.spec_bytes(),
            pb@ == pattern.spec_bytes(),
            offset + pb@.len() == sb@.len(),
            sb@.len() <= usize::MAX,
            i <= pb@.len(),
            forall|j: int| 0 <= j < i ==> sb@[offset + j] == pb@[j],
        decreases pb@.len() - i,
    {
        if sb[offset + i] != pb[i] {
            assert(sb@.subrange(offset as int, sb@.len() as int)[i as int] != pb@[i as int]);
            return false;
        }
        i = i + 1;
    }
    assert(sb@.subrange(offset as int, sb@.len() as int) =~= pb@);
    true
}

/// True iff messages at `level` from the module are let through by the settings.
pub fn level_enabled(
    level: Level,
    path: &str,
    default_level: Level,
    settings: &[(&str, Level)],
) -> (r: bool)
    ensures
        r == (level_rank(level) >= level_rank(
            level_setting(default_level, settings@, path.spec_bytes()),
        )),
{
    let mut setting = default_level;
    let mut i: usize = 0;
    while i < settings.len()
        invariant
            i <= settings@.len(),
            setting == level_setting(
                default_level,
                settings@.subrange(0, i as int),
                path.spec_bytes(),
            ),
        decreases settings@.len() - i,
    {
        let (pattern, pattern_level) = settings[i];
        proof {
            let next = settings@.subrange(0, i + 1);
            assert(next.drop_last() =~= settings@.subrange(0, i as int));
            assert(next.last() == settings@[i as int]);
        }
        if ends_with(path, pattern) {
            setting = pattern_level;
        }
        i = i + 1;
    }
    assert(settings@.subrange(0, settings@.len() as int) =~= settings@);
    level.rank() >= setting.rank()
}

/// The default level, and the levels of the modules whose paths end with a pattern.
pub fn _override_log_levels() -> (r: (Level, &'static [(&'static str, Level)]))
    ensures
        r.0 == Level::Major,
        r.1@.len() == 1,
        r.1@[0].0@ == "aarch64::pager"@,
        r.1@[0].1 == Level::Info,
{
    let settings: &'static [(&'static str, Level)] = &[("aarch64::pager", Level::Info)];
    (Level::Major, settings)
}

/// True iff messages at `level` from the module are let through.
pub fn _is_enabled(level: Level, path: &str) -> (r: bool)
    ensures
        exists|settings: Seq<(&str, Level)>|
            {
                &&& settings.len() == 1
                &&& settings[0].0@ == "aarch64::pager"@
                &&& settings[0].1 == Level::Info
                &&& r == (level_rank(level) >= level_rank(
                    level_setting(Level::Major, settings, path.spec_bytes()),
                ))
            },
{
    let (default_level, settings) = _override_log_levels();
    level_enabled(level, path, default_level, settings)
}

} // verus!
