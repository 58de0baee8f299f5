//! Settings, with their defaults.

use vstd::prelude::*;
use vstd::string::StrSliceExecFns;

use crate::numbers;
use crate::paths;
use crate::text;
use crate::words;

verus! {

pub struct Config {
    pub default_file: Option<String>,
    pub editor: EditorConfig,
    pub auto_sep: AutoSepConfig,
    pub ai: AiConfig,
    pub spell: SpellConfig,
    pub sync: SyncConfig,
}

pub struct EditorConfig {
    pub keybindings: String,
    pub line_wrap: bool,
    pub tab_width: u32,
}

pub struct AutoSepConfig {
    pub date: bool,
    pub time_gap: String,
}

pub struct AiConfig {
    pub provider: String,
    pub model: String,
    pub base_url: String,
    pub api_key_env: Option<String>,
}

pub struct SpellConfig {
    /// Language code for the spell-check dictionary. Only "en" is supported.
    pub language: String,
}

pub struct SyncConfig {
    /// Enable GitHub-backed sync. When `true`, sync is auto-enabled if the
    /// notes file is inside a git working tree with a remote configured.
    pub enabled: bool,
    /// Try `git pull --rebase` when the file is opened (blocking, 5s timeout).
    pub pull_on_open: bool,
    /// Commit + push in the background after every successful save.
    pub push_on_save: bool,
    /// Idle interval between background pulls. `"0"` or `""` disables.
    pub idle_pull_interval: String,
}

impl EditorConfig {
    pub open spec fn is_default(&self) -> bool {
        self.keybindings@ == "default"@ && self.line_wrap && self.tab_width == 4
    }
}

impl AutoSepConfig {
    pub open spec fn is_default(&self) -> bool {
        self.date && self.time_gap@.len() == 0
    }
}

impl AiConfig {
    pub open spec fn is_default(&self) -> bool {
        &&& self.provider@ == "openai"@
        &&& self.model@ == "gpt-4o-mini"@
        &&& self.base_url@ == "https://api.openai.com/v1"@
        &&& self.api_key_env is Some
        &&& self.api_key_env->Some_0@ == "OPENAI_API_KEY"@
    }
}

impl SpellConfig {
    pub open spec fn is_default(&self) -> bool {
        self.language@ == "en"@
    }
}

impl SyncConfig {
    pub open spec fn is_default(&self) -> bool {
        &&& self.enabled
        &&& self.pull_on_open
        &&& self.push_on_save
        &&& self.idle_pull_interval@ == "5m"@
    }
}

impl Config {
    pub open spec fn is_default(&self) -> bool {
        &&& self.default_file is None
        &&& self.editor.is_default()
        &&& self.auto_sep.is_default()
        &&& self.ai.is_default()
        &&& self.spell.is_default()
        &&& self.sync.is_default()
    }
}

impl Default for EditorConfig {
    fn default() -> (r: Self)
        ensures
            r.is_default(),
    {
        EditorConfig { keybindings: "default".to_owned(), line_wrap: true, tab_width: 4 }
    }
}

impl Default for AutoSepConfig {
    fn default() -> (r: Self)
        ensures
            r.is_default(),
    {
        AutoSepConfig { date: true, time_gap: String::new() }
    }
}

impl Default for AiConfig {
    fn default() -> (r: Self)
        ensures
            r.is_default(),
    {
        AiConfig {
            provider: "openai".to_owned(),
            model: "gpt-4o-mini".to_owned(),
            base_url: "https://api.openai.com/v1".to_owned(),
            api_key_env: Some("OPENAI_API_KEY".to_owned()),
        }
    }
}

impl Default for SpellConfig {
    fn default() -> (r: Self)
        ensures
            r.is_default(),
    {
        SpellConfig { language: "en".to_owned() }
    }
}

impl Default for SyncConfig {
    fn default() -> (r: Self)
        ensures
            r.is_default(),
    {
        SyncConfig {
            enabled: true,
            pull_on_open: true,
            push_on_save: true,
            idle_pull_interval: "5m".to_owned(),
        }
    }
}

impl Default for Config {
    fn default() -> (r: Self)
        ensures
            r.is_default(),
    {
        Config {
            default_file: None,
            editor: EditorConfig::default(),
            auto_sep: AutoSepConfig::default(),
            ai: AiConfig::default(),
            spell: SpellConfig::default(),
            sync: SyncConfig::default(),
        }
    }
}

impl Config {
    /// The settings without a config file: the defaults, with date separation.
    pub fn default_with_auto_sep() -> (r: Self)
        ensures
            r.is_default(),
    {
        Config::default()
    }
}

// ---------------------------------------------------------------------------
// Idle interval
// ---------------------------------------------------------------------------

/// The end of the digits from `i` on.
pub open spec fn digits_end(s: Seq<char>, i: int) -> int
    decreases s.len() - i,
{
    if 0 <= i < s.len() && numbers::digit(s[i]) {
        digits_end(s, i + 1)
    } else {
        i
    }
}

/// Seconds in a unit: `s`, `h`, and minutes otherwise.
pub open spec fn unit_seconds(unit: Seq<char>) -> int {
    if unit == "s"@ {
        1
    } else if unit == "h"@ {
        3600
    } else {
        60
    }
}

/// The number of an interval; 0 where there is none or it does not fit in 64 bits.
pub open spec fn interval_number(s: Seq<char>) -> int {
    match numbers::within(
        numbers::unsigned(s.subrange(0, digits_end(s, 0))),
        0,
        u64::MAX as int,
    ) {
        Some(n) => n,
        None => 0,
    }
}

/// The seconds of an interval such as `5m`, `30s` or `1h`; 0 for an empty one and
/// for `0`.
pub open spec fn interval_seconds(text: Seq<char>) -> int {
    let s = words::trim(text);
    if s.len() == 0 || s == "0"@ {
        0
    } else {
        interval_number(s) * unit_seconds(s.subrange(digits_end(s, 0), s.len() as int))
    }
}

impl SyncConfig {
    /// `idle_pull_interval` in seconds. Accepts e.g. `"5m"`, `"30s"`, `"1h"`.
    /// Empty or `"0"` returns 0 (disabled). What does not fit in 64 bits counts
    /// as the longest interval.
    pub fn idle_interval_duration(&self) -> (r: u64)
        ensures
            r == if interval_seconds(self.idle_pull_interval@) <= u64::MAX {
                interval_seconds(self.idle_pull_interval@)
            } else {
                u64::MAX as int
            },
    {
        let s = words::trimmed(self.idle_pull_interval.as_str());
        if s.is_empty() || text::same(s, "0") {
            return 0;
        }
        let cs = text::chars_of(s);
        let mut k: usize = 0;
        while k < cs.len() && '0' <= cs[k] && cs[k] <= '9'
            invariant
                k <= cs.len(),
                cs@ == s@,
                digits_end(s@, k as int) == digits_end(s@, 0),
            decreases cs.len() - k,
        {
            k += 1;
        }
        let n: u64 = match numbers::parse_u64(s.substring_char(0, k)) {
            Some(n) => n,
            None => 0,
        };
        let unit = s.substring_char(k, cs.len());
        let factor: u128 = if text::same(unit, "s") {
            1
        } else if text::same(unit, "h") {
            3600
        } else {
            60
        };
        proof {
            assert(n * factor <= 0xffff_ffff_ffff_ffff * 3600) by (nonlinear_arith)
                requires
                    0 <= n <= 0xffff_ffff_ffff_ffff,
                    0 <= factor <= 3600,
            ;
        }
        let seconds: u128 = n as u128 * factor;
        if seconds <= u64::MAX as u128 {
            seconds as u64
        } else {
            u64::MAX
        }
    }
}

// ---------------------------------------------------------------------------
// Places
// ---------------------------------------------------------------------------

/// The settings file, in the platform's directory for settings.
pub fn config_path(base: Option<&str>) -> (r: Result<String, &'static str>)
    ensures
        match paths::dir_view(base) {
            Some(b) => r is Ok && r->Ok_0@ == paths::inside(b, "jotstash/config.toml"@),
            None => r is Err && r->Err_0@ == "could not determine config directory"@,
        },
{
    match base {
        Some(b) => Ok(paths::join(b, "jotstash/config.toml")),
        None => Err("could not determine config directory"),
    }
}

/// Default notes-file path used when neither the command line nor the settings
/// specify one. Tries, in order:
///
/// 1. `<Documents>/jotstash/log.jot`
/// 2. `<Home>/jotstash/log.jot`
/// 3. `log.jot` in the current directory as the last resort.
pub fn default_notes_path(documents: Option<&str>, home: Option<&str>) -> (r: String)
    ensures
        r@ == match (paths::dir_view(documents), paths::dir_view(home)) {
            (Some(d), _) => paths::inside(d, "jotstash/log.jot"@),
            (None, Some(h)) => paths::inside(h, "jotstash/log.jot"@),
            (None, None) => "log.jot"@,
        },
{
    match documents {
        Some(d) => paths::join(d, "jotstash/log.jot"),
        None => match home {
            Some(h) => paths::join(h, "jotstash/log.jot"),
            None => "log.jot".to_owned(),
        },
    }
}

} // verus!
