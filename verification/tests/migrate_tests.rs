use firow_notepad::codec::{decode_global, decode_instance, encode_app, encode_global};
use firow_notepad::disk::{DiskState, FileEntry, FileMap};
use firow_notepad::migrate::migrate;
use firow_notepad::records::{AppConfig, ConfigError, GlobalConfig};

fn file_map(entries: Vec<(&str, String)>) -> FileMap {
    FileMap {
        entries: entries
            .into_iter()
            .map(|(n, c)| FileEntry { name: n.to_string(), content: c })
            .collect(),
    }
}

fn get<'a>(m: &'a FileMap, name: &str) -> Option<&'a String> {
    m.entries.iter().find(|e| e.name == name).map(|e| &e.content)
}

fn legacy_app_config() -> AppConfig {
    AppConfig {
        colorscheme: "X".to_string(),
        monaco_editor_theme: "vs-dark".to_string(),
        recent_files: vec!["a.md".to_string()],
        opened_files: vec!["a.md".to_string()],
        font_size: 20,
        word_wrap: false,
        show_invisibles: false,
        transparent_mode: false,
        window_opacity_pct: 85,
    }
}

#[test]
fn migration_of_empty_disk_is_a_no_op() {
    let mut disk = DiskState::empty();
    migrate(&mut disk).unwrap();
    assert!(disk.legacy.is_none());
    assert!(disk.flat_global.is_none());
    assert!(disk.global.is_none());
    assert!(disk.instances.entries.is_empty());
    assert!(disk.flat_instances.entries.is_empty());
}

#[test]
fn legacy_single_file_is_split_into_current_layout() {
    let mut disk = DiskState::empty();
    disk.legacy = Some(encode_app(&legacy_app_config()));
    migrate(&mut disk).unwrap();

    assert!(disk.legacy.is_none(), "legacy file must be consumed");
    let g = decode_global(disk.global.as_ref().unwrap()).unwrap();
    assert_eq!(g.colorscheme, "X");
    assert_eq!(g.font_size, 20);
    let main = decode_instance(get(&disk.instances, "main").unwrap()).unwrap();
    assert_eq!(main.opened_files, vec!["a.md".to_string()]);
    assert_eq!(main.recent_files, vec!["a.md".to_string()]);
}

#[test]
fn migration_twice_leaves_identical_state() {
    let mut disk = DiskState::empty();
    disk.legacy = Some(encode_app(&legacy_app_config()));
    disk.flat_global = Some(encode_global(&GlobalConfig::default()));
    disk.flat_instances = file_map(vec![("instance_1", "r=f.md\n".to_string())]);
    migrate(&mut disk).unwrap();

    let global_after_first = disk.global.clone();
    let mut instances_after_first: Vec<(String, String)> = disk
        .instances
        .entries
        .iter()
        .map(|e| (e.name.clone(), e.content.clone()))
        .collect();
    instances_after_first.sort();

    migrate(&mut disk).unwrap();

    assert_eq!(disk.global, global_after_first);
    let mut instances_after_second: Vec<(String, String)> = disk
        .instances
        .entries
        .iter()
        .map(|e| (e.name.clone(), e.content.clone()))
        .collect();
    instances_after_second.sort();
    assert_eq!(instances_after_second, instances_after_first);
    assert!(disk.legacy.is_none());
    assert!(disk.flat_global.is_none());
    assert!(disk.flat_instances.entries.is_empty());
}

#[test]
fn migration_never_overwrites_existing_destination() {
    let newer_global = "c=Newer\n".to_string();
    let newer_main = "p=newer.md\n".to_string();
    let mut disk = DiskState::empty();
    disk.global = Some(newer_global.clone());
    disk.instances = file_map(vec![("main", newer_main.clone())]);
    disk.legacy = Some(encode_app(&legacy_app_config()));
    disk.flat_global = Some("c=Older\n".to_string());
    disk.flat_instances = file_map(vec![("main", "p=older.md\n".to_string())]);

    migrate(&mut disk).unwrap();

    assert_eq!(disk.global.as_ref().unwrap(), &newer_global);
    assert_eq!(get(&disk.instances, "main").unwrap(), &newer_main);
    assert!(disk.legacy.is_none());
    assert!(disk.flat_global.is_none());
    assert!(disk.flat_instances.entries.is_empty());
}

#[test]
fn flat_layout_moves_into_application_directory() {
    let mut disk = DiskState::empty();
    disk.flat_global = Some("c=FromFlat\n".to_string());
    disk.flat_instances = file_map(vec![
        ("main", "p=flat.md\n".to_string()),
        ("instance_2", "r=x.md\n".to_string()),
    ]);

    migrate(&mut disk).unwrap();

    assert_eq!(disk.global.as_ref().unwrap(), "c=FromFlat\n");
    assert_eq!(get(&disk.instances, "main").unwrap(), "p=flat.md\n");
    assert_eq!(get(&disk.instances, "instance_2").unwrap(), "r=x.md\n");
    assert!(disk.flat_global.is_none());
    assert!(disk.flat_instances.entries.is_empty());
}

#[test]
fn malformed_legacy_file_surfaces_error_and_leaves_disk_unchanged() {
    let mut disk = DiskState::empty();
    disk.legacy = Some("not a record".to_string());
    let r = migrate(&mut disk);
    assert_eq!(r, Err(ConfigError::MalformedConfig));
    assert_eq!(disk.legacy.as_ref().unwrap(), "not a record");
    assert!(disk.global.is_none());
    assert!(disk.instances.entries.is_empty());
}
