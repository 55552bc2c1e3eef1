//! The migration engine: brings an arbitrary pre-existing on-disk state up to
//! the current layout, exactly once, safely re-runnable.
//!
//! Two prior layouts are consumed, in this order, on every startup:
//!
//! 1. the legacy single file — one merged record directly in the platform
//!    config root: it is split into a global and a `main` instance record,
//!    each written to its current location *only if that location is still
//!    empty*, and the legacy file is then removed;
//! 2. the flat split layout — a global record and an instances directory
//!    directly in the config root: each file moves into the application-named
//!    directory unless a same-named file already exists there, in which case
//!    the old one is discarded.
//!
//! The engine is additive and non-destructive toward newer state: a
//! destination that already exists always wins, and a source is consumed only
//! once it is represented (or superseded) at its destination. Running it when
//! nothing legacy exists changes nothing, so a second run is always a no-op
//! ([`lemma_migrate_idempotent`]).

use crate::codec::{decode_app, encode_global, encode_instance, spec_decode_app,
    spec_encode_global, spec_encode_instance};
use crate::disk::{DiskState, DiskStateV};
use crate::records::ConfigError;
use vstd::prelude::*;

verus! {

/// The instance identity of the primary process.
pub open spec fn main_id() -> Seq<char> {
    "main"@
}

/// The first step: consume the legacy single file, splitting it into the two
/// current records without overwriting either. `None` when the legacy file is
/// present but malformed: it is then left untouched and the error surfaced,
/// never replaced or discarded.
pub open spec fn spec_migrate_legacy(d: DiskStateV) -> Option<DiskStateV> {
    match d.legacy {
        None => Some(d),
        Some(text) => match spec_decode_app(text) {
            None => None,
            Some(a) => Some(
                DiskStateV {
                    legacy: None,
                    global: if d.global is Some {
                        d.global
                    } else {
                        Some(spec_encode_global(a.global))
                    },
                    instances: if d.instances.contains_key(main_id()) {
                        d.instances
                    } else {
                        d.instances.insert(main_id(), spec_encode_instance(a.instance))
                    },
                    ..d
                },
            ),
        },
    }
}

/// The second step: move the flat split layout into the application-named
/// directory; wherever a destination file already exists, the old source file
/// is discarded.
pub open spec fn spec_migrate_flat(d: DiskStateV) -> DiskStateV {
    DiskStateV {
        flat_global: None,
        flat_instances: Map::empty(),
        global: if d.global is Some {
            d.global
        } else {
            d.flat_global
        },
        instances: d.flat_instances.union_prefer_right(d.instances),
        ..d
    }
}

/// What a whole migration run does to the disk.
pub open spec fn spec_migrate(d: DiskStateV) -> Option<DiskStateV> {
    match spec_migrate_legacy(d) {
        None => None,
        Some(d1) => Some(spec_migrate_flat(d1)),
    }
}

/// Bring the on-disk state up to the current layout. Errs exactly when a
/// present legacy file cannot be decoded; the disk is then left unchanged
/// rather than risking the user's data.
pub fn migrate(disk: &mut DiskState) -> (r: Result<(), ConfigError>)
    requires
        old(disk).wf(),
    ensures
        final(disk).wf(),
        match r {
            Ok(()) => spec_migrate(old(disk)@) == Some(final(disk)@),
            Err(e) => {
                &&& spec_migrate(old(disk)@) is None
                &&& e == ConfigError::MalformedConfig
                &&& final(disk)@ == old(disk)@
            },
        },
{
    // Step 1: the legacy single file.
    match disk.legacy.take() {
        None => {},
        Some(text) => {
            let app = match decode_app(text.as_str()) {
                Ok(a) => a,
                Err(e) => {
                    disk.legacy = Some(text);
                    proof {
                        assert(disk@ =~= old(disk)@);
                    }
                    return Err(e);
                },
            };
            if disk.global.is_none() {
                let g = app.to_global();
                disk.global = Some(encode_global(&g));
            }
            let main_name = String::from_str("main");
            if !disk.instances.contains(&main_name) {
                let iv = app.to_instance();
                disk.instances.set(main_name, encode_instance(&iv));
            }
        },
    }
    proof {
        assert(spec_migrate_legacy(old(disk)@) == Some(disk@));
    }
    let ghost d1 = disk@;
    // Step 2: the flat split layout.
    match disk.flat_global.take() {
        None => {},
        Some(text) => {
            if disk.global.is_none() {
                disk.global = Some(text);
            }
        },
    }
    let ghost d2 = disk@;
    proof {
        assert(d2.global == if d1.global is Some {
            d1.global
        } else {
            d1.flat_global
        });
    }
    while disk.flat_instances.entries.len() > 0
        invariant
            disk.wf(),
            disk@.legacy == d2.legacy,
            disk@.flat_global == d2.flat_global,
            disk@.global == d2.global,
            disk@.flat_instances.union_prefer_right(disk@.instances)
                == d2.flat_instances.union_prefer_right(d2.instances),
        decreases disk.flat_instances.entries@.len(),
    {
        let ghost pre = disk@;
        match disk.flat_instances.take_any() {
            Some(e) => {
                if !disk.instances.contains(&e.name) {
                    disk.instances.set(e.name, e.content);
                    proof {
                        assert(disk@.flat_instances.union_prefer_right(disk@.instances)
                            =~= pre.flat_instances.union_prefer_right(pre.instances));
                    }
                } else {
                    proof {
                        assert(disk@.flat_instances.union_prefer_right(disk@.instances)
                            =~= pre.flat_instances.union_prefer_right(pre.instances));
                    }
                }
            },
            None => {
                // Unreachable: the directory still holds an entry.
                proof {
                    assert(false);
                }
            },
        }
    }
    proof {
        assert(disk.flat_instances.entries@ =~= Seq::<crate::disk::FileEntry>::empty());
        assert(disk@.flat_instances =~= Map::<Seq<char>, Seq<char>>::empty());
        assert(Map::<Seq<char>, Seq<char>>::empty().union_prefer_right(disk@.instances)
            =~= disk@.instances);
        assert(disk@ =~= spec_migrate_flat(d1));
    }
    Ok(())
}

/// Running migration a second time changes nothing: the first run consumed
/// every legacy source, so the second finds only the current layout.
pub proof fn lemma_migrate_idempotent(d: DiskStateV)
    requires
        spec_migrate(d) is Some,
    ensures
        spec_migrate(spec_migrate(d)->Some_0) == spec_migrate(d),
{
    let d1 = spec_migrate(d)->Some_0;
    assert(d1.legacy is None);
    assert(spec_migrate_legacy(d1) == Some(d1));
    assert(Map::<Seq<char>, Seq<char>>::empty().union_prefer_right(d1.instances)
        =~= d1.instances);
    assert(spec_migrate_flat(d1) =~= d1);
}

/// Migration never overwrites an existing current-layout file with older
/// legacy data: a destination that exists always wins.
pub proof fn lemma_migrate_destination_wins(d: DiskStateV)
    requires
        spec_migrate(d) is Some,
    ensures
        d.global is Some ==> spec_migrate(d)->Some_0.global == d.global,
        forall|k: Seq<char>|
            d.instances.contains_key(k) ==> #[trigger] spec_migrate(
                d,
            )->Some_0.instances.contains_key(k) && spec_migrate(d)->Some_0.instances[k]
                == d.instances[k],
{
    let d1 = spec_migrate_legacy(d)->Some_0;
    assert(d.global is Some ==> d1.global == d.global);
    assert forall|k: Seq<char>| d.instances.contains_key(k) implies #[trigger] spec_migrate(
        d,
    )->Some_0.instances.contains_key(k) && spec_migrate(d)->Some_0.instances[k]
        == d.instances[k] by {
        assert(d1.instances.contains_key(k) && d1.instances[k] == d.instances[k]);
        assert(d1.flat_instances.union_prefer_right(d1.instances)[k] == d1.instances[k]);
    }
}

} // verus!
