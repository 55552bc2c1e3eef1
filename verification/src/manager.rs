//! The configuration manager: the public operations the GUI layer calls, and
//! the list rules they enforce.
//!
//! Every operation works on the in-memory [`AppData`] and the modeled
//! [`DiskState`]; each mutation re-derives the affected on-disk record from
//! the merged state and writes it through at once.
//!
//! # The two-phase update protocol
//!
//! The surrounding process keeps `AppData` under one mutual-exclusion lock and
//! must not hold that lock across blocking file writes. Each mutation is
//! therefore split so it can run in two phases: under the first acquisition,
//! compute the new list with [`recent_files_with`], [`opened_files_with`] or
//! [`filtered_without`] and encode the record to persist; release the lock and
//! perform the write on that captured value; re-acquire the lock and commit
//! only the field the operation owns, so a racing operation on an unrelated
//! field is not clobbered. The combined operations below state what one whole
//! update does to the store and the disk model; the list functions are public
//! precisely so the phases can be driven separately around a real lock.

use crate::codec::{decode_global, decode_instance, encode_global, encode_instance,
    spec_decode_global, spec_decode_instance, spec_encode_global, spec_encode_instance};
use crate::disk::{DiskState, DiskStateV};
use crate::migrate::{main_id, migrate, spec_migrate};
use crate::records::{
    AppConfig, AppConfigV, ConfigError, GlobalConfig, InstanceConfig, InstanceConfigV,
    RECENT_FILES_CAP, clone_string_vec, contains_string, default_global, default_instance,
    distinct_entries,
};
use vstd::prelude::*;

verus! {

// ---------------------------------------------------------------------------
// List rules
// ---------------------------------------------------------------------------

/// `l` without every occurrence of `p`, order otherwise kept.
pub open spec fn remove_entry(l: Seq<Seq<char>>, p: Seq<char>) -> Seq<Seq<char>>
    decreases l.len(),
{
    if l.len() == 0 {
        Seq::empty()
    } else {
        let r = remove_entry(l.drop_last(), p);
        if l.last() == p {
            r
        } else {
            r.push(l.last())
        }
    }
}

/// A list holds `y` after a push exactly when it held `y` before or `y` is
/// what was pushed.
pub proof fn lemma_contains_push(s: Seq<Seq<char>>, x: Seq<char>, y: Seq<char>)
    ensures
        s.push(x).contains(y) <==> (s.contains(y) || x == y),
{
    if s.contains(y) {
        let i = choose|i: int| 0 <= i < s.len() && s[i] == y;
        assert(s.push(x)[i] == y);
    }
    if x == y {
        assert(s.push(x)[s.len() as int] == y);
    }
    if s.push(x).contains(y) {
        let i = choose|i: int| 0 <= i < s.push(x).len() && s.push(x)[i] == y;
        if i < s.len() {
            assert(s[i] == y);
        }
    }
}

/// What filtering keeps and drops: the dropped entry is gone, everything else
/// stays, duplicates never appear, and the length shrinks exactly when the
/// entry was present.
pub proof fn lemma_remove_entry_props(l: Seq<Seq<char>>, p: Seq<char>)
    ensures
        !remove_entry(l, p).contains(p),
        forall|x: Seq<char>| x != p ==> (remove_entry(l, p).contains(x) <==> l.contains(x)),
        remove_entry(l, p).len() <= l.len(),
        !l.contains(p) ==> remove_entry(l, p) == l,
        distinct_entries(l) ==> distinct_entries(remove_entry(l, p)),
        distinct_entries(l) && l.contains(p) ==> remove_entry(l, p).len() == l.len() - 1,
    decreases l.len(),
{
    let r = remove_entry(l, p);
    if l.len() == 0 {
        assert(!r.contains(p)) by {
            if r.contains(p) {
                let i = choose|i: int| 0 <= i < r.len() && r[i] == p;
            }
        }
        assert forall|x: Seq<char>| x != p implies (r.contains(x) <==> l.contains(x)) by {
            if r.contains(x) {
                let i = choose|i: int| 0 <= i < r.len() && r[i] == x;
            }
            if l.contains(x) {
                let i = choose|i: int| 0 <= i < l.len() && l[i] == x;
            }
        }
        assert(!l.contains(p) ==> r =~= l);
    } else {
        let d = l.drop_last();
        let z = l.last();
        lemma_remove_entry_props(d, p);
        let rt = remove_entry(d, p);
        assert(l =~= d.push(z));
        assert(forall|y: Seq<char>| l.contains(y) <==> d.push(z).contains(y));
        assert forall|y: Seq<char>| #[trigger] l.contains(y) <==> (d.contains(y) || z == y) by {
            lemma_contains_push(d, z, y);
        }
        assert(distinct_entries(l) ==> distinct_entries(d)) by {
            assert(forall|i: int| 0 <= i < d.len() ==> d[i] == l[i]);
        }
        if z == p {
            assert(r == rt);
            assert(!l.contains(p) ==> r == l) by {
                assert(l.contains(p)) by {
                    assert(l[l.len() - 1] == p);
                }
            }
            if distinct_entries(l) && l.contains(p) {
                assert(!d.contains(p)) by {
                    if d.contains(p) {
                        let i = choose|i: int| 0 <= i < d.len() && d[i] == p;
                        assert(l[i] == p && l[l.len() - 1] == p);
                    }
                }
                assert(r == d);
            }
        } else {
            assert(r == rt.push(z));
            assert forall|y: Seq<char>| #[trigger] r.contains(y) <==> (rt.contains(y) || z
                == y) by {
                lemma_contains_push(rt, z, y);
            }
            assert(!r.contains(p));
            assert forall|x: Seq<char>| x != p implies (r.contains(x) <==> l.contains(x)) by {
                assert(r.contains(x) <==> (rt.contains(x) || z == x));
                assert(l.contains(x) <==> (d.contains(x) || z == x));
            }
            if !l.contains(p) {
                assert(!d.contains(p));
                assert(rt == d);
                assert(r =~= l);
            }
            if distinct_entries(l) {
                assert(!rt.contains(z)) by {
                    if rt.contains(z) {
                        assert(d.contains(z));
                        let i = choose|i: int| 0 <= i < d.len() && d[i] == z;
                        assert(l[i] == z && l[l.len() - 1] == z);
                    }
                }
                crate::codec::lemma_distinct_push(rt, z);
                if l.contains(p) {
                    assert(d.contains(p));
                }
            }
        }
    }
}

/// The most-recently-used rule: drop any occurrence of the path, put it in
/// front, and keep only the first [`RECENT_FILES_CAP`] entries, so the oldest
/// fall off first.
pub open spec fn spec_push_recent(l: Seq<Seq<char>>, p: Seq<char>) -> Seq<Seq<char>> {
    let full = seq![p] + remove_entry(l, p);
    if full.len() <= RECENT_FILES_CAP {
        full
    } else {
        full.take(RECENT_FILES_CAP as int)
    }
}

/// The opened-files rule: appending is a no-op when the path is already a
/// tab, so no duplicate entry can ever arise.
pub open spec fn spec_add_opened(l: Seq<Seq<char>>, p: Seq<char>) -> Seq<Seq<char>> {
    if l.contains(p) {
        l
    } else {
        l.push(p)
    }
}

/// The most-recently-used rule puts the path in front, never exceeds the cap,
/// and keeps the list duplicate-free.
pub proof fn lemma_push_recent_wf(l: Seq<Seq<char>>, p: Seq<char>)
    requires
        distinct_entries(l),
    ensures
        spec_push_recent(l, p).len() >= 1,
        spec_push_recent(l, p)[0] == p,
        spec_push_recent(l, p).len() <= RECENT_FILES_CAP,
        distinct_entries(spec_push_recent(l, p)),
        spec_push_recent(l, p).contains(p),
{
    lemma_remove_entry_props(l, p);
    let kept = remove_entry(l, p);
    let full = seq![p] + kept;
    assert(full[0] == p);
    assert forall|i: int, j: int| 0 <= i < j < full.len() implies full[i] != full[j] by {
        if i == 0 {
            if full[0] == full[j] {
                assert(kept[j - 1] == p);
                assert(kept.contains(p));
            }
        } else {
            assert(full[i] == kept[i - 1] && full[j] == kept[j - 1]);
        }
    }
    let r = spec_push_recent(l, p);
    assert(r[0] == p);
    assert(r.contains(p)) by {
        assert(r[0] == p);
    }
    assert(distinct_entries(r)) by {
        assert(forall|i: int| 0 <= i < r.len() ==> r[i] == full[i]);
    }
}

/// Re-adding a path that is already listed moves it to the front without
/// changing the list's length.
pub proof fn lemma_push_recent_requeue(l: Seq<Seq<char>>, p: Seq<char>)
    requires
        distinct_entries(l),
        l.len() <= RECENT_FILES_CAP,
        l.contains(p),
    ensures
        spec_push_recent(l, p).len() == l.len(),
        spec_push_recent(l, p)[0] == p,
{
    lemma_remove_entry_props(l, p);
    lemma_push_recent_wf(l, p);
}

/// Dropping the front entry of a list that holds it only there removes
/// exactly that entry.
proof fn lemma_remove_entry_cons_head(p: Seq<char>, tail: Seq<Seq<char>>)
    requires
        !tail.contains(p),
    ensures
        remove_entry(seq![p] + tail, p) == tail,
    decreases tail.len(),
{
    let s = seq![p] + tail;
    if tail.len() == 0 {
        assert(s.drop_last() =~= Seq::<Seq<char>>::empty());
        assert(s.last() == p);
        assert(remove_entry(Seq::<Seq<char>>::empty(), p) == Seq::<Seq<char>>::empty());
        assert(remove_entry(s, p) == remove_entry(s.drop_last(), p));
        assert(remove_entry(s, p) =~= tail);
    } else {
        assert(!tail.drop_last().contains(p)) by {
            if tail.drop_last().contains(p) {
                let i = choose|i: int| 0 <= i < tail.drop_last().len() && tail.drop_last()[i] == p;
                assert(tail[i] == p);
            }
        }
        assert(s.drop_last() =~= seq![p] + tail.drop_last());
        lemma_remove_entry_cons_head(p, tail.drop_last());
        assert(s.last() == tail.last());
        assert(s.last() != p) by {
            if tail.last() == p {
                assert(tail[tail.len() - 1] == p);
            }
        }
        assert(remove_entry(s, p) == remove_entry(s.drop_last(), p).push(s.last()));
        assert(remove_entry(s.drop_last(), p) == tail.drop_last());
        assert(tail.drop_last().push(tail.last()) =~= tail);
    }
}

/// Visiting a path twice in a row is the same as visiting it once: the second
/// visit finds it already in front and changes nothing.
pub proof fn lemma_push_recent_idempotent(l: Seq<Seq<char>>, p: Seq<char>)
    requires
        distinct_entries(l),
    ensures
        spec_push_recent(spec_push_recent(l, p), p) == spec_push_recent(l, p),
{
    lemma_push_recent_wf(l, p);
    let r = spec_push_recent(l, p);
    let tail = r.drop_first();
    assert(r =~= seq![p] + tail);
    assert(!tail.contains(p)) by {
        if tail.contains(p) {
            let i = choose|i: int| 0 <= i < tail.len() && tail[i] == p;
            assert(r[i + 1] == p && r[0] == p);
        }
    }
    lemma_remove_entry_cons_head(p, tail);
    assert(remove_entry(r, p) == tail);
    assert(spec_push_recent(r, p) =~= r);
}

/// Adding a fresh path grows the list by one until the cap is reached, after
/// which the length stays pinned at the cap.
pub proof fn lemma_push_recent_fresh(l: Seq<Seq<char>>, p: Seq<char>)
    requires
        distinct_entries(l),
        l.len() <= RECENT_FILES_CAP,
        !l.contains(p),
    ensures
        l.len() < RECENT_FILES_CAP ==> spec_push_recent(l, p).len() == l.len() + 1,
        l.len() == RECENT_FILES_CAP ==> spec_push_recent(l, p).len() == RECENT_FILES_CAP,
{
    lemma_remove_entry_props(l, p);
}

/// Appending never creates a duplicate, and a present path leaves the list
/// unchanged, however often it is added.
pub proof fn lemma_add_opened_wf(l: Seq<Seq<char>>, p: Seq<char>)
    requires
        distinct_entries(l),
    ensures
        distinct_entries(spec_add_opened(l, p)),
        spec_add_opened(l, p).contains(p),
        spec_add_opened(spec_add_opened(l, p), p) == spec_add_opened(l, p),
        l.contains(p) ==> spec_add_opened(l, p) == l,
{
    let r = spec_add_opened(l, p);
    if !l.contains(p) {
        crate::codec::lemma_distinct_push(l, p);
        assert(r[r.len() - 1] == p);
    }
    assert(r.contains(p)) by {
        if l.contains(p) {
        } else {
            assert(r[r.len() - 1] == p);
        }
    }
}

/// `files` without every occurrence of `path`, order otherwise kept.
pub fn filtered_without(files: &Vec<String>, path: &String) -> (r: Vec<String>)
    ensures
        r.deep_view() == remove_entry(files.deep_view(), path@),
{
    let mut r: Vec<String> = Vec::new();
    let mut i: usize = 0;
    proof {
        assert(files.deep_view().take(0) =~= Seq::<Seq<char>>::empty());
        assert(r.deep_view() =~= remove_entry(files.deep_view().take(0), path@));
    }
    while i < files.len()
        invariant
            i <= files@.len(),
            files.deep_view().len() == files@.len(),
            r.deep_view() == remove_entry(files.deep_view().take(i as int), path@),
        decreases files@.len() - i,
    {
        let ghost dv = files.deep_view();
        proof {
            assert(dv[i as int] == files@[i as int]@);
            assert(dv.take(i + 1).drop_last() =~= dv.take(i as int));
            assert(dv.take(i + 1).last() == dv[i as int]);
        }
        if !files[i].eq(path) {
            r.push(files[i].clone());
        }
        proof {
            assert(r.deep_view() =~= remove_entry(dv.take(i + 1), path@));
        }
        i += 1;
    }
    proof {
        assert(files.deep_view().take(files@.len() as int) =~= files.deep_view());
    }
    r
}

/// The most-recently-used list after visiting `path`: computed without
/// touching the store, for the first phase of the update protocol.
pub fn recent_files_with(files: &Vec<String>, path: &String) -> (r: Vec<String>)
    ensures
        r.deep_view() == spec_push_recent(files.deep_view(), path@),
{
    let kept = filtered_without(files, path);
    let mut r: Vec<String> = Vec::new();
    r.push(path.clone());
    let ghost full = seq![path@] + kept.deep_view();
    proof {
        assert(r.deep_view() =~= full.take(1));
    }
    let mut j: usize = 0;
    while j < kept.len() && r.len() < RECENT_FILES_CAP
        invariant
            j <= kept@.len(),
            kept.deep_view().len() == kept@.len(),
            full == seq![path@] + kept.deep_view(),
            r@.len() == j + 1,
            r@.len() <= RECENT_FILES_CAP,
            r.deep_view() == full.take(j + 1),
        decreases kept@.len() - j,
    {
        proof {
            assert(kept.deep_view()[j as int] == kept@[j as int]@);
            assert(full[j + 1] == kept.deep_view()[j as int]);
        }
        r.push(kept[j].clone());
        proof {
            assert(r.deep_view() =~= full.take(j + 2));
        }
        j += 1;
    }
    proof {
        if j == kept@.len() {
            assert(full.take(j + 1) =~= full);
        }
        assert(r.deep_view() =~= spec_push_recent(files.deep_view(), path@));
    }
    r
}

/// The opened-files list after opening `path`, and whether it changed:
/// computed without touching the store, for the first phase of the update
/// protocol.
pub fn opened_files_with(files: &Vec<String>, path: &String) -> (r: (Vec<String>, bool))
    ensures
        r.0.deep_view() == spec_add_opened(files.deep_view(), path@),
        r.1 == !files.deep_view().contains(path@),
{
    if contains_string(files, path) {
        (clone_string_vec(files), false)
    } else {
        let mut r = clone_string_vec(files);
        r.push(path.clone());
        proof {
            assert(r.deep_view() =~= files.deep_view().push(path@));
        }
        (r, true)
    }
}

// ---------------------------------------------------------------------------
// The in-memory store
// ---------------------------------------------------------------------------

/// Mathematical content of an [`AppData`].
#[verifier::ext_equal]
pub struct AppDataV {
    pub app_config: AppConfigV,
    pub instance_id: Option<Seq<char>>,
}

/// The single source of truth the GUI layer consults: the merged
/// configuration and the active instance identity. The surrounding process
/// holds it under one exclusive lock; every operation here works on the whole
/// value, so a reader can never observe a torn mix of old and new fields.
pub struct AppData {
    pub app_config: AppConfig,
    pub instance_id: Option<String>,
}

impl View for AppData {
    type V = AppDataV;

    open spec fn view(&self) -> AppDataV {
        AppDataV {
            app_config: self.app_config@,
            instance_id: match self.instance_id {
                Some(s) => Some(s@),
                None => None,
            },
        }
    }
}

impl AppData {
    /// A fresh store: default configuration, no identity chosen yet.
    pub fn new() -> (r: Self)
        ensures
            r@.app_config == crate::records::default_app(),
            r@.app_config.wf(),
            r@.instance_id is None,
    {
        AppData { app_config: AppConfig::new(), instance_id: None }
    }
}

/// The identity whose record is read and written: the one set at startup, or
/// `main` for the primary process.
pub open spec fn effective_id(d: AppDataV) -> Seq<char> {
    match d.instance_id {
        Some(s) => s,
        None => main_id(),
    }
}

// ---------------------------------------------------------------------------
// The manager
// ---------------------------------------------------------------------------

/// What a load does, once migration has run: read each record or create its
/// default, persisting a freshly created default at once so the file exists
/// for the next launch; merge the two parts. `None` when a present record is
/// malformed — the store is then left as it was, never overwritten with
/// defaults.
pub open spec fn spec_load(d: DiskStateV, id: Seq<char>) -> Option<(DiskStateV, AppConfigV)> {
    let gr = match d.global {
        Some(t) => spec_decode_global(t),
        None => Some(default_global()),
    };
    let ir = if d.instances.contains_key(id) {
        spec_decode_instance(d.instances[id])
    } else {
        Some(default_instance())
    };
    if gr is None || ir is None {
        None
    } else {
        let d2 = DiskStateV {
            global: if d.global is Some {
                d.global
            } else {
                Some(spec_encode_global(default_global()))
            },
            instances: if d.instances.contains_key(id) {
                d.instances
            } else {
                d.instances.insert(id, spec_encode_instance(default_instance()))
            },
            ..d
        };
        Some((d2, AppConfigV { global: gr->Some_0, instance: ir->Some_0 }))
    }
}

/// What a save does: split the merged record and write both parts for the
/// active identity, whether or not each changed.
pub open spec fn spec_save(d: DiskStateV, id: Seq<char>, c: AppConfigV) -> DiskStateV {
    DiskStateV {
        global: Some(spec_encode_global(c.global)),
        instances: d.instances.insert(id, spec_encode_instance(c.instance)),
        ..d
    }
}

/// Orchestrates the codec, the migration engine and the store to implement
/// the public operations.
pub struct ConfigManager;

impl ConfigManager {
    /// The application-named directory under the platform config root that
    /// holds the current layout.
    pub fn config_dir_name() -> (r: &'static str)
        ensures
            r@ == "FirowNotepad"@,
    {
        "FirowNotepad"
    }

    /// The global record's file name inside the application directory.
    pub fn global_file_name() -> (r: &'static str)
        ensures
            r@ == "firow-notepad-global.cfg"@,
    {
        "firow-notepad-global.cfg"
    }

    /// The instances directory's name inside the application directory.
    pub fn instances_dir_name() -> (r: &'static str)
        ensures
            r@ == "firow-notepad-instances"@,
    {
        "firow-notepad-instances"
    }

    /// The legacy single file's name, directly in the platform config root.
    pub fn legacy_file_name() -> (r: &'static str)
        ensures
            r@ == "firow-notepad.cfg"@,
    {
        "firow-notepad.cfg"
    }

    /// The file name an instance's record is stored under.
    pub fn instance_file_name(instance_id: &str) -> (r: String)
        ensures
            r@ == instance_id@ + ".cfg"@,
    {
        let base = String::from_str(instance_id);
        base.concat(".cfg")
    }

    /// The active identity, defaulting to the primary process's.
    fn resolve_id(data: &AppData) -> (r: String)
        ensures
            r@ == effective_id(data@),
    {
        match &data.instance_id {
            Some(s) => s.clone(),
            None => String::from_str("main"),
        }
    }

    /// Run migration, then read (or default-create) the global record and the
    /// active instance's record, merge them and store the result. Fails
    /// exactly when a present record cannot be decoded; the store then keeps
    /// its prior state, and no default is written over the corrupt file.
    pub fn load_config(data: &mut AppData, disk: &mut DiskState) -> (r: Result<(), ConfigError>)
        requires
            old(disk).wf(),
        ensures
            final(disk).wf(),
            match r {
                Ok(()) => {
                    &&& spec_migrate(old(disk)@) is Some
                    &&& spec_load(
                        spec_migrate(old(disk)@)->Some_0,
                        effective_id(old(data)@),
                    ) is Some
                    &&& final(disk)@ == spec_load(
                        spec_migrate(old(disk)@)->Some_0,
                        effective_id(old(data)@),
                    )->Some_0.0
                    &&& final(data)@.app_config == spec_load(
                        spec_migrate(old(disk)@)->Some_0,
                        effective_id(old(data)@),
                    )->Some_0.1
                    &&& final(data)@.instance_id == Some(effective_id(old(data)@))
                    &&& final(data)@.app_config.wf()
                },
                Err(e) => {
                    &&& e == ConfigError::MalformedConfig
                    &&& final(data)@ == old(data)@
                    &&& (if spec_migrate(old(disk)@) is None {
                        final(disk)@ == old(disk)@
                    } else {
                        final(disk)@ == spec_migrate(old(disk)@)->Some_0 && spec_load(
                            spec_migrate(old(disk)@)->Some_0,
                            effective_id(old(data)@),
                        ) is None
                    })
                },
            },
    {
        match migrate(disk) {
            Ok(()) => {},
            Err(e) => {
                return Err(e);
            },
        }
        let id = Self::resolve_id(data);
        let global_cfg = match &disk.global {
            Some(text) => match decode_global(text.as_str()) {
                Ok(g) => g,
                Err(e) => {
                    return Err(e);
                },
            },
            None => GlobalConfig::default(),
        };
        let instance_cfg = match disk.instances.get(&id) {
            Some(text) => match decode_instance(text.as_str()) {
                Ok(iv) => iv,
                Err(e) => {
                    return Err(e);
                },
            },
            None => InstanceConfig::default(),
        };
        // Both records decoded: now persist whichever was created fresh, so
        // the files exist for the next launch.
        if disk.global.is_none() {
            disk.global = Some(encode_global(&global_cfg));
        }
        if !disk.instances.contains(&id) {
            let text = encode_instance(&instance_cfg);
            disk.instances.set(id.clone(), text);
        }
        proof {
            assert(disk@ =~= spec_load(
                spec_migrate(old(disk)@)->Some_0,
                effective_id(old(data)@),
            )->Some_0.0);
        }
        data.app_config = AppConfig::from_global_and_instance(global_cfg, instance_cfg);
        data.instance_id = Some(id);
        Ok(())
    }

    /// Split the given merged record, persist both parts for the active
    /// identity — whether or not each changed — and store the record.
    pub fn save_config(data: &mut AppData, disk: &mut DiskState, config: AppConfig)
        requires
            old(disk).wf(),
            config@.wf(),
        ensures
            final(disk).wf(),
            final(disk)@ == spec_save(old(disk)@, effective_id(old(data)@), config@),
            final(data)@.app_config == config@,
            final(data)@.app_config.wf(),
            final(data)@.instance_id == old(data)@.instance_id,
    {
        let id = Self::resolve_id(data);
        let g = config.to_global();
        disk.global = Some(encode_global(&g));
        let iv = config.to_instance();
        disk.instances.set(id, encode_instance(&iv));
        data.app_config = config;
        proof {
            assert(disk@ =~= spec_save(old(disk)@, effective_id(old(data)@), config@));
        }
    }

    /// A copy of the current merged configuration.
    pub fn get_config(data: &AppData) -> (r: AppConfig)
        ensures
            r@ == data@.app_config,
    {
        data.app_config.clone()
    }

    /// Record that `path` was opened as a tab: a no-op when it already is one
    /// (nothing is persisted then); otherwise it is appended and the instance
    /// record written through.
    pub fn add_to_opened_files(data: &mut AppData, disk: &mut DiskState, path: String)
        requires
            old(disk).wf(),
            old(data)@.app_config.wf(),
        ensures
            final(disk).wf(),
            final(data)@.app_config.wf(),
            final(data)@.app_config.instance.opened_files == spec_add_opened(
                old(data)@.app_config.instance.opened_files,
                path@,
            ),
            final(data)@.app_config.instance.recent_files
                == old(data)@.app_config.instance.recent_files,
            final(data)@.app_config.global == old(data)@.app_config.global,
            final(data)@.instance_id == old(data)@.instance_id,
            old(data)@.app_config.instance.opened_files.contains(path@) ==> final(disk)@ == old(
                disk,
            )@ && final(data)@ == old(data)@,
            !old(data)@.app_config.instance.opened_files.contains(path@) ==> final(disk)@
                == (DiskStateV {
                instances: old(disk)@.instances.insert(
                    effective_id(old(data)@),
                    spec_encode_instance(final(data)@.app_config.instance),
                ),
                ..old(disk)@
            }),
    {
        let (files, changed) = opened_files_with(&data.app_config.opened_files, &path);
        proof {
            lemma_add_opened_wf(old(data)@.app_config.instance.opened_files, path@);
        }
        if !changed {
            proof {
                assert(files.deep_view() == old(data)@.app_config.instance.opened_files);
            }
            return ;
        }
        let id = Self::resolve_id(data);
        data.app_config.opened_files = files;
        let iv = data.app_config.to_instance();
        let text = encode_instance(&iv);
        disk.instances.set(id, text);
        proof {
            assert(data@.app_config =~= (AppConfigV {
                instance: InstanceConfigV {
                    opened_files: spec_add_opened(
                        old(data)@.app_config.instance.opened_files,
                        path@,
                    ),
                    ..old(data)@.app_config.instance
                },
                ..old(data)@.app_config
            }));
            assert(disk@ =~= (DiskStateV {
                instances: old(disk)@.instances.insert(
                    effective_id(old(data)@),
                    spec_encode_instance(data@.app_config.instance),
                ),
                ..old(disk)@
            }));
        }
    }

    /// Record that `path` was visited: any existing occurrence moves to the
    /// front, the list is capped, and the instance record written through.
    pub fn add_to_recent_files(data: &mut AppData, disk: &mut DiskState, path: String)
        requires
            old(disk).wf(),
            old(data)@.app_config.wf(),
        ensures
            final(disk).wf(),
            final(data)@.app_config.wf(),
            final(data)@.app_config.instance.recent_files == spec_push_recent(
                old(data)@.app_config.instance.recent_files,
                path@,
            ),
            final(data)@.app_config.instance.opened_files
                == old(data)@.app_config.instance.opened_files,
            final(data)@.app_config.global == old(data)@.app_config.global,
            final(data)@.instance_id == old(data)@.instance_id,
            final(disk)@ == (DiskStateV {
                instances: old(disk)@.instances.insert(
                    effective_id(old(data)@),
                    spec_encode_instance(final(data)@.app_config.instance),
                ),
                ..old(disk)@
            }),
    {
        let files = recent_files_with(&data.app_config.recent_files, &path);
        proof {
            lemma_push_recent_wf(old(data)@.app_config.instance.recent_files, path@);
        }
        let id = Self::resolve_id(data);
        data.app_config.recent_files = files;
        let iv = data.app_config.to_instance();
        let text = encode_instance(&iv);
        disk.instances.set(id, text);
        proof {
            assert(data@.app_config =~= (AppConfigV {
                instance: InstanceConfigV {
                    recent_files: spec_push_recent(
                        old(data)@.app_config.instance.recent_files,
                        path@,
                    ),
                    ..old(data)@.app_config.instance
                },
                ..old(data)@.app_config
            }));
            assert(disk@ =~= (DiskStateV {
                instances: old(disk)@.instances.insert(
                    effective_id(old(data)@),
                    spec_encode_instance(data@.app_config.instance),
                ),
                ..old(disk)@
            }));
        }
    }

    /// Close a tab: every occurrence of `path` is dropped and the instance
    /// record written through.
    pub fn remove_from_opened_files(data: &mut AppData, disk: &mut DiskState, path: &String)
        requires
            old(disk).wf(),
            old(data)@.app_config.wf(),
        ensures
            final(disk).wf(),
            final(data)@.app_config.wf(),
            final(data)@.app_config.instance.opened_files == remove_entry(
                old(data)@.app_config.instance.opened_files,
                path@,
            ),
            final(data)@.app_config.instance.recent_files
                == old(data)@.app_config.instance.recent_files,
            final(data)@.app_config.global == old(data)@.app_config.global,
            final(data)@.instance_id == old(data)@.instance_id,
            final(disk)@ == (DiskStateV {
                instances: old(disk)@.instances.insert(
                    effective_id(old(data)@),
                    spec_encode_instance(final(data)@.app_config.instance),
                ),
                ..old(disk)@
            }),
    {
        let files = filtered_without(&data.app_config.opened_files, path);
        proof {
            lemma_remove_entry_props(old(data)@.app_config.instance.opened_files, path@);
        }
        let id = Self::resolve_id(data);
        data.app_config.opened_files = files;
        let iv = data.app_config.to_instance();
        let text = encode_instance(&iv);
        disk.instances.set(id, text);
        proof {
            assert(data@.app_config =~= (AppConfigV {
                instance: InstanceConfigV {
                    opened_files: remove_entry(
                        old(data)@.app_config.instance.opened_files,
                        path@,
                    ),
                    ..old(data)@.app_config.instance
                },
                ..old(data)@.app_config
            }));
            assert(disk@ =~= (DiskStateV {
                instances: old(disk)@.instances.insert(
                    effective_id(old(data)@),
                    spec_encode_instance(data@.app_config.instance),
                ),
                ..old(disk)@
            }));
        }
    }

    /// Close every tab and write the instance record through.
    pub fn clear_opened_files(data: &mut AppData, disk: &mut DiskState)
        requires
            old(disk).wf(),
            old(data)@.app_config.wf(),
        ensures
            final(disk).wf(),
            final(data)@.app_config.wf(),
            final(data)@.app_config.instance.opened_files == Seq::<Seq<char>>::empty(),
            final(data)@.app_config.instance.recent_files
                == old(data)@.app_config.instance.recent_files,
            final(data)@.app_config.global == old(data)@.app_config.global,
            final(data)@.instance_id == old(data)@.instance_id,
            final(disk)@ == (DiskStateV {
                instances: old(disk)@.instances.insert(
                    effective_id(old(data)@),
                    spec_encode_instance(final(data)@.app_config.instance),
                ),
                ..old(disk)@
            }),
    {
        let id = Self::resolve_id(data);
        data.app_config.opened_files = Vec::new();
        proof {
            assert(data.app_config.opened_files.deep_view() =~= Seq::<Seq<char>>::empty());
        }
        let iv = data.app_config.to_instance();
        let text = encode_instance(&iv);
        disk.instances.set(id, text);
        proof {
            assert(disk@ =~= (DiskStateV {
                instances: old(disk)@.instances.insert(
                    effective_id(old(data)@),
                    spec_encode_instance(data@.app_config.instance),
                ),
                ..old(disk)@
            }));
        }
    }

    /// Set the identity whose instance record later operations read and
    /// write. Nothing is re-loaded or persisted by itself: callers follow
    /// with [`ConfigManager::load_config`] to pick up the new instance's
    /// record.
    pub fn set_instance_id(data: &mut AppData, instance_id: String)
        ensures
            final(data)@.instance_id == Some(instance_id@),
            final(data)@.app_config == old(data)@.app_config,
    {
        data.instance_id = Some(instance_id);
    }
}

/// Saving a merged record and loading it straight back yields that record:
/// nothing is lost through the disk, for any valid record, as long as no one
/// else touched the files in between. (After a save, no legacy source exists
/// if none did before, so the load's migration step changes nothing either.)
pub proof fn lemma_save_then_load(d: DiskStateV, id: Seq<char>, c: AppConfigV)
    requires
        c.wf(),
        d.legacy is None,
        d.flat_global is None,
        d.flat_instances == Map::<Seq<char>, Seq<char>>::empty(),
    ensures
        spec_migrate(spec_save(d, id, c)) == Some(spec_save(d, id, c)),
        spec_load(spec_save(d, id, c), id) == Some((spec_save(d, id, c), c)),
{
    let s = spec_save(d, id, c);
    assert(Map::<Seq<char>, Seq<char>>::empty().union_prefer_right(s.instances) =~= s.instances);
    assert(crate::migrate::spec_migrate_flat(s) =~= s);
    crate::codec::lemma_global_round_trip(c.global);
    crate::codec::lemma_instance_round_trip(c.instance);
    assert(s.instances.contains_key(id));
    assert(s.instances[id] == spec_encode_instance(c.instance));
    let loaded = spec_load(s, id);
    assert(loaded is Some);
    assert(loaded->Some_0.0 =~= s);
    assert(loaded->Some_0.1 =~= c);
}

} // verus!
