//! The configuration records and their merged runtime view.
//!
//! `GlobalConfig` holds machine-wide presentation preferences, shared by every
//! running instance. `InstanceConfig` holds one instance's session state: the
//! files shown as tabs and the most-recently-used list. `AppConfig` is the
//! merged view the GUI layer works with; it is split back into the two parts
//! before anything is persisted.
//!
//! Opacity is carried as an integer percentage (`85` stands for the fraction
//! `0.85`) so that the whole record is made of plainly comparable values.

use vstd::prelude::*;

verus! {

/// The largest number of entries `recent_files` may hold.
pub const RECENT_FILES_CAP: usize = 100;

/// Why a library operation failed. Only a decode failure arises inside the
/// library itself; the other kinds are reported by the surrounding process
/// when a file operation, a lock or a native watcher fails, so that callers
/// see one taxonomy.
#[derive(Clone, Copy, Debug, PartialEq, Eq, Structural)]
pub enum ConfigError {
    /// A present record could not be decoded. Such a file is never replaced
    /// with defaults: the error is surfaced instead.
    MalformedConfig,
    /// A file could not be created, opened or written.
    PersistenceError,
    /// A file operation was refused for lack of rights.
    PermissionDenied,
    /// An internal lock was poisoned or unavailable.
    LockError,
    /// A native filesystem watcher could not be created or registered.
    WatchError,
}

impl ConfigError {
    /// A short human-readable description, for surfacing to the GUI layer.
    pub fn message(&self) -> (r: &'static str)
        ensures
            *self is MalformedConfig ==> r@ == "malformed configuration record"@,
            *self is PersistenceError ==> r@ == "failed to read or write configuration"@,
            *self is PermissionDenied ==> r@ == "permission denied"@,
            *self is LockError ==> r@ == "configuration lock unavailable"@,
            *self is WatchError ==> r@ == "failed to create file watcher"@,
    {
        match self {
            ConfigError::MalformedConfig => "malformed configuration record",
            ConfigError::PersistenceError => "failed to read or write configuration",
            ConfigError::PermissionDenied => "permission denied",
            ConfigError::LockError => "configuration lock unavailable",
            ConfigError::WatchError => "failed to create file watcher",
        }
    }
}

// ---------------------------------------------------------------------------
// Global configuration
// ---------------------------------------------------------------------------

/// Mathematical content of a [`GlobalConfig`].
#[verifier::ext_equal]
pub struct GlobalConfigV {
    pub colorscheme: Seq<char>,
    pub monaco_editor_theme: Seq<char>,
    pub font_size: u32,
    pub word_wrap: bool,
    pub show_invisibles: bool,
    pub transparent_mode: bool,
    pub window_opacity_pct: u32,
}

impl GlobalConfigV {
    /// Valid global records carry a positive font size and an opacity that is
    /// a percentage.
    pub open spec fn wf(self) -> bool {
        self.font_size >= 1 && self.window_opacity_pct <= 100
    }
}

/// The machine-wide preferences: one record per user profile, created with
/// defaults on first run, mutated only through an explicit save.
#[derive(Debug, PartialEq)]
pub struct GlobalConfig {
    pub colorscheme: String,
    pub monaco_editor_theme: String,
    pub font_size: u32,
    pub word_wrap: bool,
    pub show_invisibles: bool,
    pub transparent_mode: bool,
    /// Window opacity as a percentage of full opacity (`85` means `0.85`).
    pub window_opacity_pct: u32,
}

impl View for GlobalConfig {
    type V = GlobalConfigV;

    open spec fn view(&self) -> GlobalConfigV {
        GlobalConfigV {
            colorscheme: self.colorscheme@,
            monaco_editor_theme: self.monaco_editor_theme@,
            font_size: self.font_size,
            word_wrap: self.word_wrap,
            show_invisibles: self.show_invisibles,
            transparent_mode: self.transparent_mode,
            window_opacity_pct: self.window_opacity_pct,
        }
    }
}

/// The defaults a fresh global record is created with.
pub open spec fn default_global() -> GlobalConfigV {
    GlobalConfigV {
        colorscheme: "FirowNotepad"@,
        monaco_editor_theme: "vs-dark"@,
        font_size: 14,
        word_wrap: false,
        show_invisibles: false,
        transparent_mode: false,
        window_opacity_pct: 85,
    }
}

/// A fresh global record is valid, so first-run creation never persists an
/// invalid record.
pub proof fn lemma_default_global_wf()
    ensures
        default_global().wf(),
{
}

impl Default for GlobalConfig {
    /// The record a fresh profile starts from.
    fn default() -> (r: Self)
        ensures
            r@ == default_global(),
            r@.wf(),
    {
        GlobalConfig {
            colorscheme: String::from_str("FirowNotepad"),
            monaco_editor_theme: String::from_str("vs-dark"),
            font_size: 14,
            word_wrap: false,
            show_invisibles: false,
            transparent_mode: false,
            window_opacity_pct: 85,
        }
    }
}

impl Clone for GlobalConfig {
    fn clone(&self) -> (r: Self)
        ensures
            r@ == self@,
    {
        GlobalConfig {
            colorscheme: self.colorscheme.clone(),
            monaco_editor_theme: self.monaco_editor_theme.clone(),
            font_size: self.font_size,
            word_wrap: self.word_wrap,
            show_invisibles: self.show_invisibles,
            transparent_mode: self.transparent_mode,
            window_opacity_pct: self.window_opacity_pct,
        }
    }
}

impl GlobalConfig {
    /// Whether the record satisfies the global validity conditions.
    pub fn is_well_formed(&self) -> (r: bool)
        ensures
            r == self@.wf(),
    {
        self.font_size >= 1 && self.window_opacity_pct <= 100
    }
}

// ---------------------------------------------------------------------------
// Instance configuration
// ---------------------------------------------------------------------------

/// No entry occurs twice.
pub open spec fn distinct_entries(s: Seq<Seq<char>>) -> bool {
    forall|i: int, j: int| 0 <= i < j < s.len() ==> s[i] != s[j]
}

/// Mathematical content of an [`InstanceConfig`].
#[verifier::ext_equal]
pub struct InstanceConfigV {
    pub recent_files: Seq<Seq<char>>,
    pub opened_files: Seq<Seq<char>>,
}

impl InstanceConfigV {
    /// Valid instance records hold duplicate-free lists, with the
    /// most-recently-used list capped.
    pub open spec fn wf(self) -> bool {
        &&& distinct_entries(self.recent_files)
        &&& distinct_entries(self.opened_files)
        &&& self.recent_files.len() <= RECENT_FILES_CAP
    }
}

/// One instance's session state: the files currently shown as tabs (insertion
/// order) and the most-recently-used list (most recent first, capped, no
/// duplicates). One record per instance identity; it outlives the instance.
#[derive(Debug, PartialEq)]
pub struct InstanceConfig {
    pub recent_files: Vec<String>,
    pub opened_files: Vec<String>,
}

impl View for InstanceConfig {
    type V = InstanceConfigV;

    open spec fn view(&self) -> InstanceConfigV {
        InstanceConfigV {
            recent_files: self.recent_files.deep_view(),
            opened_files: self.opened_files.deep_view(),
        }
    }
}

/// The record a fresh instance starts from: both lists empty.
pub open spec fn default_instance() -> InstanceConfigV {
    InstanceConfigV { recent_files: Seq::empty(), opened_files: Seq::empty() }
}

/// A fresh instance record is valid, so first-run creation never persists an
/// invalid record.
pub proof fn lemma_default_instance_wf()
    ensures
        default_instance().wf(),
{
}

impl Default for InstanceConfig {
    /// The record a fresh instance starts from.
    fn default() -> (r: Self)
        ensures
            r@ == default_instance(),
            r@.wf(),
    {
        let r = InstanceConfig { recent_files: Vec::new(), opened_files: Vec::new() };
        proof {
            assert(r@ =~= default_instance());
        }
        r
    }
}

impl Clone for InstanceConfig {
    fn clone(&self) -> (r: Self)
        ensures
            r@ == self@,
    {
        let r = InstanceConfig {
            recent_files: clone_string_vec(&self.recent_files),
            opened_files: clone_string_vec(&self.opened_files),
        };
        proof {
            assert(r@ =~= self@);
        }
        r
    }
}

impl InstanceConfig {
    /// Whether the record satisfies the instance validity conditions.
    pub fn is_well_formed(&self) -> (r: bool)
        ensures
            r == self@.wf(),
    {
        self.recent_files.len() <= RECENT_FILES_CAP && all_entries_distinct(&self.recent_files)
            && all_entries_distinct(&self.opened_files)
    }
}

/// Element-wise copy of a list of paths.
pub fn clone_string_vec(v: &Vec<String>) -> (r: Vec<String>)
    ensures
        r@ == v@,
        r.deep_view() == v.deep_view(),
{
    let mut r: Vec<String> = Vec::new();
    let mut i: usize = 0;
    while i < v.len()
        invariant
            i <= v@.len(),
            r@ =~= v@.take(i as int),
        decreases v@.len() - i,
    {
        r.push(v[i].clone());
        proof {
            assert(r@ =~= v@.take(i + 1));
        }
        i += 1;
    }
    proof {
        assert(v@.take(v@.len() as int) =~= v@);
        assert(r.deep_view() =~= v.deep_view());
    }
    r
}

/// Whether `v` holds `x`.
pub fn contains_string(v: &Vec<String>, x: &String) -> (r: bool)
    ensures
        r == v.deep_view().contains(x@),
{
    let mut i: usize = 0;
    while i < v.len()
        invariant
            i <= v@.len(),
            forall|k: int| 0 <= k < i ==> v.deep_view()[k] != x@,
        decreases v@.len() - i,
    {
        if v[i].eq(x) {
            proof {
                assert(v.deep_view()[i as int] == x@);
            }
            return true;
        }
        proof {
            assert(v.deep_view()[i as int] == v@[i as int]@);
        }
        i += 1;
    }
    proof {
        if v.deep_view().contains(x@) {
            let k = choose|k: int| 0 <= k < v.deep_view().len() && v.deep_view()[k] == x@;
            assert(v.deep_view()[k] == x@);
        }
    }
    false
}

/// Whether no path occurs twice in `v`.
pub fn all_entries_distinct(v: &Vec<String>) -> (r: bool)
    ensures
        r == distinct_entries(v.deep_view()),
{
    let mut i: usize = 0;
    while i < v.len()
        invariant
            i <= v@.len(),
            forall|p: int, q: int| 0 <= p < q < v.deep_view().len() && q < i ==> v.deep_view()[p]
                != v.deep_view()[q],
        decreases v@.len() - i,
    {
        let mut j: usize = 0;
        while j < i
            invariant
                j <= i < v@.len(),
                forall|p: int| 0 <= p < j ==> v.deep_view()[p] != v.deep_view()[i as int],
            decreases i - j,
        {
            if v[j].eq(&v[i]) {
                proof {
                    assert(v.deep_view()[j as int] == v.deep_view()[i as int]);
                }
                return false;
            }
            proof {
                assert(v.deep_view()[j as int] == v@[j as int]@);
                assert(v.deep_view()[i as int] == v@[i as int]@);
            }
            j += 1;
        }
        i += 1;
    }
    true
}

// ---------------------------------------------------------------------------
// Merged configuration
// ---------------------------------------------------------------------------

/// Mathematical content of an [`AppConfig`]: the two parts it merges.
#[verifier::ext_equal]
pub struct AppConfigV {
    pub global: GlobalConfigV,
    pub instance: InstanceConfigV,
}

impl AppConfigV {
    pub open spec fn wf(self) -> bool {
        self.global.wf() && self.instance.wf()
    }
}

/// The merged runtime view the GUI layer works with: the union of the global
/// and instance fields. It is split back into the two parts before anything
/// is persisted; it is itself persisted only as the legacy compatibility
/// format.
#[derive(Debug, PartialEq)]
pub struct AppConfig {
    pub colorscheme: String,
    pub monaco_editor_theme: String,
    pub recent_files: Vec<String>,
    pub opened_files: Vec<String>,
    pub font_size: u32,
    pub word_wrap: bool,
    pub show_invisibles: bool,
    pub transparent_mode: bool,
    /// Window opacity as a percentage of full opacity (`85` means `0.85`).
    pub window_opacity_pct: u32,
}

impl View for AppConfig {
    type V = AppConfigV;

    open spec fn view(&self) -> AppConfigV {
        AppConfigV {
            global: GlobalConfigV {
                colorscheme: self.colorscheme@,
                monaco_editor_theme: self.monaco_editor_theme@,
                font_size: self.font_size,
                word_wrap: self.word_wrap,
                show_invisibles: self.show_invisibles,
                transparent_mode: self.transparent_mode,
                window_opacity_pct: self.window_opacity_pct,
            },
            instance: InstanceConfigV {
                recent_files: self.recent_files.deep_view(),
                opened_files: self.opened_files.deep_view(),
            },
        }
    }
}

/// The defaults a fresh merged record is created with.
pub open spec fn default_app() -> AppConfigV {
    AppConfigV { global: default_global(), instance: default_instance() }
}

impl Default for AppConfig {
    fn default() -> (r: Self)
        ensures
            r@ == default_app(),
            r@.wf(),
    {
        let r = AppConfig {
            colorscheme: String::from_str("FirowNotepad"),
            monaco_editor_theme: String::from_str("vs-dark"),
            recent_files: Vec::new(),
            opened_files: Vec::new(),
            font_size: 14,
            word_wrap: false,
            show_invisibles: false,
            transparent_mode: false,
            window_opacity_pct: 85,
        };
        proof {
            assert(r@ =~= default_app());
        }
        r
    }
}

impl Clone for AppConfig {
    fn clone(&self) -> (r: Self)
        ensures
            r@ == self@,
    {
        let r = AppConfig {
            colorscheme: self.colorscheme.clone(),
            monaco_editor_theme: self.monaco_editor_theme.clone(),
            recent_files: clone_string_vec(&self.recent_files),
            opened_files: clone_string_vec(&self.opened_files),
            font_size: self.font_size,
            word_wrap: self.word_wrap,
            show_invisibles: self.show_invisibles,
            transparent_mode: self.transparent_mode,
            window_opacity_pct: self.window_opacity_pct,
        };
        proof {
            assert(r@ =~= self@);
        }
        r
    }
}

impl AppConfig {
    /// A fresh merged record with every field at its default.
    pub fn new() -> (r: Self)
        ensures
            r@ == default_app(),
            r@.wf(),
    {
        Self::default()
    }

    /// Merge the two persisted parts into the runtime view.
    pub fn from_global_and_instance(global: GlobalConfig, instance: InstanceConfig) -> (r: Self)
        ensures
            r@ == (AppConfigV { global: global@, instance: instance@ }),
    {
        let r = AppConfig {
            colorscheme: global.colorscheme,
            monaco_editor_theme: global.monaco_editor_theme,
            font_size: global.font_size,
            word_wrap: global.word_wrap,
            show_invisibles: global.show_invisibles,
            transparent_mode: global.transparent_mode,
            window_opacity_pct: global.window_opacity_pct,
            recent_files: instance.recent_files,
            opened_files: instance.opened_files,
        };
        proof {
            assert(r@ =~= AppConfigV { global: global@, instance: instance@ });
        }
        r
    }

    /// The global part of the merged view.
    pub fn to_global(&self) -> (r: GlobalConfig)
        ensures
            r@ == self@.global,
    {
        GlobalConfig {
            colorscheme: self.colorscheme.clone(),
            monaco_editor_theme: self.monaco_editor_theme.clone(),
            font_size: self.font_size,
            word_wrap: self.word_wrap,
            show_invisibles: self.show_invisibles,
            transparent_mode: self.transparent_mode,
            window_opacity_pct: self.window_opacity_pct,
        }
    }

    /// The instance part of the merged view.
    pub fn to_instance(&self) -> (r: InstanceConfig)
        ensures
            r@ == self@.instance,
    {
        let r = InstanceConfig {
            recent_files: clone_string_vec(&self.recent_files),
            opened_files: clone_string_vec(&self.opened_files),
        };
        proof {
            assert(r@ =~= self@.instance);
        }
        r
    }

    /// Whether both parts satisfy their validity conditions.
    pub fn is_well_formed(&self) -> (r: bool)
        ensures
            r == self@.wf(),
    {
        let fs_ok = self.font_size >= 1 && self.window_opacity_pct <= 100;
        fs_ok && self.recent_files.len() <= RECENT_FILES_CAP && all_entries_distinct(
            &self.recent_files,
        ) && all_entries_distinct(&self.opened_files)
    }
}

/// Splitting a merged record and merging the parts back yields the record
/// unchanged: nothing is lost between the runtime view and the two persisted
/// parts.
pub proof fn lemma_merge_split_identity(a: AppConfigV)
    ensures
        (AppConfigV { global: a.global, instance: a.instance }) == a,
{
    assert(AppConfigV { global: a.global, instance: a.instance } =~= a);
}

} // verus!
