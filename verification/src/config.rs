//! User configuration, mirroring the sections of the config file, and its
//! validation.
//!
//! A missing file means the built-in defaults, which match
//! [`LayoutParams::default`](crate::layout::LayoutParams). A file that is
//! present but out of range is rejected wholesale: the daemon never applies a
//! partial configuration.

use vstd::prelude::*;

use crate::ipc::{LayoutKind, RATIO_SCALE};
use crate::keys::{is_known_id, known_id};
use crate::text::{is_blank, is_substring, str_contains, str_is_blank};

verus! {

/// Smallest accepted master ratio (5%), out of [`RATIO_SCALE`].
pub const MIN_MASTER_RATIO: u32 = 50000;

/// Largest accepted master ratio (95%), out of [`RATIO_SCALE`].
pub const MAX_MASTER_RATIO: u32 = 950000;

/// A `[[rules]]` entry: match a window by `class` and/or `title` and apply an
/// override. A rule with neither field set matches nothing; when both are
/// set, both must match.
#[derive(Debug, PartialEq, Eq)]
pub struct WindowRule {
    /// Substring matched (case-sensitively) against the window's class.
    pub class: Option<String>,
    /// Substring matched (case-sensitively) against the window's title.
    pub title: Option<String>,
    /// Force the matched window to float (skip tiling).
    pub float: bool,
}

impl Clone for WindowRule {
    fn clone(&self) -> (r: Self)
        ensures
            r == *self,
    {
        WindowRule {
            class: crate::ipc::clone_opt_string(&self.class),
            title: crate::ipc::clone_opt_string(&self.title),
            float: self.float,
        }
    }
}

/// The characters of an optional text.
pub open spec fn opt_chars(s: Option<&str>) -> Option<Seq<char>> {
    match s {
        Some(t) => Some(t@),
        None => None,
    }
}

/// One field of a rule against the window's value of it: an absent field is
/// a wildcard, a present one must occur inside the window's value.
pub open spec fn field_matches(want: Option<String>, have: Option<Seq<char>>) -> bool {
    match want {
        Some(w) => match have {
            Some(h) => is_substring(w@, h),
            None => false,
        },
        None => true,
    }
}

/// Whether `rule` matches a window with the given class and title.
pub open spec fn rule_matches(rule: WindowRule, class: Option<Seq<char>>, title: Option<Seq<char>>) -> bool {
    &&& (rule.class is Some || rule.title is Some)
    &&& field_matches(rule.class, class)
    &&& field_matches(rule.title, title)
}

/// The text `w` occurs in `h` starting at offset `off`, character by
/// character.
pub open spec fn occurs_at(w: Seq<char>, h: Seq<char>, off: int) -> bool {
    &&& 0 <= off
    &&& off + w.len() <= h.len()
    &&& forall|m: int| 0 <= m < w.len() ==> h[off + m] == #[trigger] w[m]
}

/// A rule field matches a window's value exactly when the field's text
/// occurs at some offset of that value (a case-sensitive substring, not only
/// a prefix or suffix); an absent field matches anything, and a present one
/// never matches an absent value.
pub proof fn lemma_field_matches_occurrence(want: Option<String>, have: Option<Seq<char>>)
    ensures
        field_matches(want, have) <==> match want {
            None => true,
            Some(w) => match have {
                None => false,
                Some(h) => exists|off: int| #[trigger] occurs_at(w@, h, off),
            },
        },
{
    if let Some(w) = want {
        if let Some(h) = have {
            let n = w@.len();
            if field_matches(want, have) {
                let i = choose|i: int| 0 <= i && i + n <= h.len() && #[trigger] h.subrange(i, i + n) == w@;
                assert forall|m: int| 0 <= m < n implies h[i + m] == #[trigger] w@[m] by {
                    assert(h.subrange(i, i + n)[m] == h[i + m]);
                }
                assert(occurs_at(w@, h, i));
            }
            if exists|off: int| #[trigger] occurs_at(w@, h, off) {
                let off = choose|off: int| #[trigger] occurs_at(w@, h, off);
                assert(h.subrange(off, off + n) =~= w@);
            }
        }
    }
}

/// A rule matches a window exactly when it names a class or a title, and
/// each field it names occurs somewhere inside the window's value of it.
pub proof fn lemma_rule_matches_occurrence(rule: WindowRule, class: Option<Seq<char>>, title: Option<Seq<char>>)
    ensures
        rule_matches(rule, class, title) <==> {
            &&& rule.class is Some || rule.title is Some
            &&& rule.class is Some ==> class is Some && exists|off: int|
                #[trigger] occurs_at(rule.class->0@, class->0, off)
            &&& rule.title is Some ==> title is Some && exists|off: int|
                #[trigger] occurs_at(rule.title->0@, title->0, off)
        },
{
    lemma_field_matches_occurrence(rule.class, class);
    lemma_field_matches_occurrence(rule.title, title);
}

/// One field of a rule against the window's value of it.
fn field_ok(want: &Option<String>, have: Option<&str>) -> (r: bool)
    ensures
        r == field_matches(*want, opt_chars(have)),
{
    match want {
        Some(w) => match have {
            Some(h) => str_contains(h, w.as_str()),
            None => false,
        },
        None => true,
    }
}

impl WindowRule {
    /// Whether this rule matches a window's `class`/`title`. Each present field
    /// is a case-sensitive substring test; an absent field is a wildcard. A
    /// rule with no fields never matches.
    pub fn matches(&self, class: Option<&str>, title: Option<&str>) -> (r: bool)
        ensures
            r == rule_matches(*self, opt_chars(class), opt_chars(title)),
    {
        if self.class.is_none() && self.title.is_none() {
            return false;
        }
        let class_ok = field_ok(&self.class, class);
        let title_ok = field_ok(&self.title, title);
        class_ok && title_ok
    }
}

/// `[layout]`: the default layout and its master-region tunables.
#[derive(Debug, Clone, Copy, PartialEq, Eq, Structural)]
pub struct LayoutConfig {
    /// Layout assigned to newly materialized cells.
    pub default: LayoutKind,
    /// Share of the area given to the master region, out of [`RATIO_SCALE`].
    pub master_ratio: u32,
    /// Number of windows in the master region.
    pub master_count: usize,
    /// Whether global auto-tiling starts enabled.
    pub tiling_enabled: bool,
}

impl Default for LayoutConfig {
    fn default() -> (r: Self)
        ensures
            r == (LayoutConfig {
                default: LayoutKind::Tile,
                master_ratio: 600000,
                master_count: 1,
                tiling_enabled: true,
            }),
    {
        LayoutConfig {
            default: LayoutKind::Tile,
            master_ratio: 600000,
            master_count: 1,
            tiling_enabled: true,
        }
    }
}

/// `[gaps]`: spacing between tiles and around the screen edge, in pixels.
#[derive(Debug, Clone, Copy, PartialEq, Eq, Structural)]
pub struct GapsConfig {
    pub inner: i32,
    pub outer: i32,
}

impl Default for GapsConfig {
    fn default() -> (r: Self)
        ensures
            r == (GapsConfig { inner: 8, outer: 12 }),
    {
        GapsConfig { inner: 8, outer: 12 }
    }
}

/// `[behavior]`: session behavior flags.
#[derive(Debug, Clone, Copy, PartialEq, Eq, Structural)]
pub struct BehaviorConfig {
    /// Key cells by virtual desktop (off: one cell spans every desktop).
    pub per_desktop: bool,
    /// Key cells by activity (off: one cell spans every activity).
    pub per_activity: bool,
    /// Whether focus follows the mouse pointer.
    pub focus_follows_mouse: bool,
}

impl Default for BehaviorConfig {
    fn default() -> (r: Self)
        ensures
            r == (BehaviorConfig {
                per_desktop: true,
                per_activity: true,
                focus_follows_mouse: false,
            }),
    {
        BehaviorConfig { per_desktop: true, per_activity: true, focus_follows_mouse: false }
    }
}

/// The effective configuration, mirroring the config file's sections.
#[derive(Debug, Clone, PartialEq, Eq)]
pub struct Config {
    pub layout: LayoutConfig,
    pub gaps: GapsConfig,
    pub behavior: BehaviorConfig,
    /// `[[rules]]`: per-window overrides matched on class/title.
    pub rules: Vec<WindowRule>,
    /// `[keys]`: per-binding key overrides, as (binding id, key sequence).
    pub keys: Vec<(String, String)>,
}

impl Default for Config {
    fn default() -> (r: Self)
        ensures
            r.layout == (LayoutConfig {
                default: LayoutKind::Tile,
                master_ratio: 600000,
                master_count: 1,
                tiling_enabled: true,
            }),
            r.gaps == (GapsConfig { inner: 8, outer: 12 }),
            r.behavior == (BehaviorConfig {
                per_desktop: true,
                per_activity: true,
                focus_follows_mouse: false,
            }),
            r.rules@.len() == 0,
            r.keys@.len() == 0,
    {
        Config {
            layout: LayoutConfig::default(),
            gaps: GapsConfig::default(),
            behavior: BehaviorConfig::default(),
            rules: Vec::new(),
            keys: Vec::new(),
        }
    }
}

/// Why a configuration was rejected.
#[derive(Debug, PartialEq, Eq)]
pub enum ConfigError {
    /// `layout.master_ratio` outside 5%..=95% (the offending value).
    MasterRatioOutOfRange(u32),
    /// `layout.master_count` is zero.
    MasterCountZero,
    /// `gaps.inner` is negative (the offending value).
    NegativeInnerGap(i32),
    /// `gaps.outer` is negative (the offending value).
    NegativeOuterGap(i32),
    /// `rules[i]` sets neither `class` nor `title`.
    RuleWithoutMatch(usize),
    /// `keys.<id>` names no built-in binding.
    UnknownKeyId(String),
    /// `keys.<id>` is empty or blank.
    EmptyKey(String),
}

/// A rule names at least one field to match on.
pub open spec fn rule_ok(r: WindowRule) -> bool {
    r.class is Some || r.title is Some
}

/// A key override names a known binding and a non-blank key.
pub open spec fn key_entry_ok(e: (String, String)) -> bool {
    known_id(e.0@) && !is_blank(e.1@)
}

/// The error a bad key override is reported with.
pub open spec fn key_entry_error(e: (String, String)) -> ConfigError {
    if !known_id(e.0@) {
        ConfigError::UnknownKeyId(e.0)
    } else {
        ConfigError::EmptyKey(e.0)
    }
}

/// The checks before the rules pass.
pub open spec fn scalars_error(c: Config) -> Option<ConfigError> {
    if c.layout.master_ratio < MIN_MASTER_RATIO || c.layout.master_ratio > MAX_MASTER_RATIO {
        Some(ConfigError::MasterRatioOutOfRange(c.layout.master_ratio))
    } else if c.layout.master_count < 1 {
        Some(ConfigError::MasterCountZero)
    } else if c.gaps.inner < 0 {
        Some(ConfigError::NegativeInnerGap(c.gaps.inner))
    } else if c.gaps.outer < 0 {
        Some(ConfigError::NegativeOuterGap(c.gaps.outer))
    } else {
        None
    }
}

/// What validation answers: the first failing check, in the order ratio,
/// count, inner gap, outer gap, rules (first bad rule), keys (first bad
/// entry); `Ok` when every check passes.
pub open spec fn validate_spec(c: Config, r: Result<(), ConfigError>) -> bool {
    match scalars_error(c) {
        Some(e) => r == Err::<(), ConfigError>(e),
        None => if exists|i: int| 0 <= i < c.rules@.len() && !rule_ok(#[trigger] c.rules@[i]) {
            exists|i: int|
                0 <= i < c.rules@.len() && !rule_ok(#[trigger] c.rules@[i]) && (forall|j: int|
                    0 <= j < i ==> rule_ok(#[trigger] c.rules@[j])) && r == Err::<(), ConfigError>(
                    ConfigError::RuleWithoutMatch(i as usize),
                )
        } else if exists|i: int| 0 <= i < c.keys@.len() && !key_entry_ok(#[trigger] c.keys@[i]) {
            exists|i: int|
                0 <= i < c.keys@.len() && !key_entry_ok(#[trigger] c.keys@[i]) && (forall|j: int|
                    0 <= j < i ==> key_entry_ok(#[trigger] c.keys@[j])) && r == Err::<
                    (),
                    ConfigError,
                >(key_entry_error(c.keys@[i]))
        } else {
            r == Ok::<(), ConfigError>(())
        },
    }
}

/// Every value is in range: the configuration may be applied.
pub open spec fn config_valid(c: Config) -> bool {
    &&& scalars_error(c) is None
    &&& forall|i: int| 0 <= i < c.rules@.len() ==> rule_ok(#[trigger] c.rules@[i])
    &&& forall|i: int| 0 <= i < c.keys@.len() ==> key_entry_ok(#[trigger] c.keys@[i])
}

impl Config {
    /// Reject out-of-range values so a bad config never partially applies.
    pub fn validate(&self) -> (r: Result<(), ConfigError>)
        ensures
            validate_spec(*self, r),
            r is Ok <==> config_valid(*self),
    {
        let ratio = self.layout.master_ratio;
        if ratio < MIN_MASTER_RATIO || ratio > MAX_MASTER_RATIO {
            return Err(ConfigError::MasterRatioOutOfRange(ratio));
        }
        if self.layout.master_count < 1 {
            return Err(ConfigError::MasterCountZero);
        }
        if self.gaps.inner < 0 {
            return Err(ConfigError::NegativeInnerGap(self.gaps.inner));
        }
        if self.gaps.outer < 0 {
            return Err(ConfigError::NegativeOuterGap(self.gaps.outer));
        }
        let mut i: usize = 0;
        while i < self.rules.len()
            invariant
                scalars_error(*self) is None,
                i <= self.rules@.len(),
                forall|j: int| 0 <= j < i ==> rule_ok(#[trigger] self.rules@[j]),
            decreases self.rules@.len() - i,
        {
            if self.rules[i].class.is_none() && self.rules[i].title.is_none() {
                assert(!rule_ok(self.rules@[i as int]));
                let r = Err(ConfigError::RuleWithoutMatch(i));
                assert(0 <= i < self.rules@.len() && !rule_ok(self.rules@[i as int]) && (forall|j: int|
                    0 <= j < i ==> rule_ok(#[trigger] self.rules@[j])) && r == Err::<(), ConfigError>(
                    ConfigError::RuleWithoutMatch((i as int) as usize),
                ));
                return r;
            }
            i = i + 1;
        }
        let mut k: usize = 0;
        while k < self.keys.len()
            invariant
                scalars_error(*self) is None,
                forall|j: int| 0 <= j < self.rules@.len() ==> rule_ok(#[trigger] self.rules@[j]),
                k <= self.keys@.len(),
                forall|j: int| 0 <= j < k ==> key_entry_ok(#[trigger] self.keys@[j]),
            decreases self.keys@.len() - k,
        {
            let (id, key) = (&self.keys[k].0, &self.keys[k].1);
            if !is_known_id(id.as_str()) {
                assert(!key_entry_ok(self.keys@[k as int]));
                let r = Err(ConfigError::UnknownKeyId(id.clone()));
                assert(r == Err::<(), ConfigError>(key_entry_error(self.keys@[k as int])));
                assert(!(exists|i: int| 0 <= i < self.rules@.len() && !rule_ok(#[trigger] self.rules@[i])));
                return r;
            }
            if str_is_blank(key.as_str()) {
                assert(!key_entry_ok(self.keys@[k as int]));
                let r = Err(ConfigError::EmptyKey(id.clone()));
                assert(r == Err::<(), ConfigError>(key_entry_error(self.keys@[k as int])));
                assert(!(exists|i: int| 0 <= i < self.rules@.len() && !rule_ok(#[trigger] self.rules@[i])));
                return r;
            }
            k = k + 1;
        }
        Ok(())
    }
}

} // verus!
