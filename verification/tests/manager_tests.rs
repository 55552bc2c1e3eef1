use firow_notepad::codec::{decode_global, decode_instance, encode_app};
use firow_notepad::disk::DiskState;
use firow_notepad::manager::{AppData, ConfigManager};
use firow_notepad::records::{AppConfig, ConfigError};

fn instance_record<'a>(disk: &'a DiskState, id: &str) -> Option<&'a String> {
    disk.instances
        .entries
        .iter()
        .find(|e| e.name == id)
        .map(|e| &e.content)
}

#[test]
fn fresh_environment_load_creates_defaults_on_disk_and_in_memory() {
    let mut data = AppData::new();
    let mut disk = DiskState::empty();
    ConfigManager::load_config(&mut data, &mut disk).unwrap();

    assert_eq!(data.app_config.colorscheme, "FirowNotepad");
    assert_eq!(data.app_config.font_size, 14);
    assert!(data.app_config.recent_files.is_empty());
    assert!(data.app_config.opened_files.is_empty());
    assert_eq!(data.instance_id.as_deref(), Some("main"));

    let g = decode_global(disk.global.as_ref().unwrap()).unwrap();
    assert_eq!(g.colorscheme, "FirowNotepad");
    assert_eq!(g.font_size, 14);
    let main = decode_instance(instance_record(&disk, "main").unwrap()).unwrap();
    assert!(main.recent_files.is_empty());
    assert!(main.opened_files.is_empty());
}

#[test]
fn load_after_legacy_migration_reads_the_split_records() {
    let legacy = AppConfig {
        colorscheme: "X".to_string(),
        monaco_editor_theme: "vs-dark".to_string(),
        recent_files: vec!["a.md".to_string()],
        opened_files: vec!["a.md".to_string()],
        font_size: 20,
        word_wrap: false,
        show_invisibles: false,
        transparent_mode: false,
        window_opacity_pct: 85,
    };
    let mut disk = DiskState::empty();
    disk.legacy = Some(encode_app(&legacy));
    let mut data = AppData::new();
    ConfigManager::load_config(&mut data, &mut disk).unwrap();

    assert!(disk.legacy.is_none());
    assert_eq!(data.app_config.colorscheme, "X");
    assert_eq!(data.app_config.font_size, 20);
    assert_eq!(data.app_config.opened_files, vec!["a.md".to_string()]);
    assert_eq!(data.app_config.recent_files, vec!["a.md".to_string()]);
}

#[test]
fn load_surfaces_malformed_global_and_keeps_store_prior_state() {
    let mut data = AppData::new();
    data.app_config.colorscheme = "untouched".to_string();
    let mut disk = DiskState::empty();
    disk.global = Some("s=zero\n".to_string());
    let r = ConfigManager::load_config(&mut data, &mut disk);
    assert_eq!(r, Err(ConfigError::MalformedConfig));
    assert_eq!(data.app_config.colorscheme, "untouched");
    assert!(data.instance_id.is_none());
    // The corrupt file was not replaced with defaults.
    assert_eq!(disk.global.as_ref().unwrap(), "s=zero\n");
}

#[test]
fn save_then_load_round_trips_the_merged_config() {
    let mut data = AppData::new();
    let mut disk = DiskState::empty();
    ConfigManager::load_config(&mut data, &mut disk).unwrap();

    let config = AppConfig {
        colorscheme: "Gruvbox".to_string(),
        monaco_editor_theme: "vs".to_string(),
        recent_files: vec!["r1".to_string(), "r2".to_string()],
        opened_files: vec!["o1".to_string()],
        font_size: 18,
        word_wrap: true,
        show_invisibles: false,
        transparent_mode: true,
        window_opacity_pct: 70,
    };
    assert!(config.is_well_formed());
    ConfigManager::save_config(&mut data, &mut disk, config);
    ConfigManager::load_config(&mut data, &mut disk).unwrap();

    let loaded = ConfigManager::get_config(&data);
    assert_eq!(loaded.colorscheme, "Gruvbox");
    assert_eq!(loaded.monaco_editor_theme, "vs");
    assert_eq!(loaded.recent_files, vec!["r1".to_string(), "r2".to_string()]);
    assert_eq!(loaded.opened_files, vec!["o1".to_string()]);
    assert_eq!(loaded.font_size, 18);
    assert!(loaded.word_wrap);
    assert!(loaded.transparent_mode);
    assert_eq!(loaded.window_opacity_pct, 70);
}

#[test]
fn add_to_opened_files_never_duplicates() {
    let mut data = AppData::new();
    let mut disk = DiskState::empty();
    ConfigManager::load_config(&mut data, &mut disk).unwrap();

    ConfigManager::add_to_opened_files(&mut data, &mut disk, "a.md".to_string());
    ConfigManager::add_to_opened_files(&mut data, &mut disk, "b.md".to_string());
    ConfigManager::add_to_opened_files(&mut data, &mut disk, "a.md".to_string());
    ConfigManager::add_to_opened_files(&mut data, &mut disk, "a.md".to_string());

    // Appended at the end, most recently opened last, no duplicates.
    assert_eq!(
        data.app_config.opened_files,
        vec!["a.md".to_string(), "b.md".to_string()]
    );
    let main = decode_instance(instance_record(&disk, "main").unwrap()).unwrap();
    assert_eq!(main.opened_files, data.app_config.opened_files);
}

#[test]
fn add_to_recent_files_moves_existing_path_to_front_without_growing() {
    let mut data = AppData::new();
    let mut disk = DiskState::empty();
    ConfigManager::load_config(&mut data, &mut disk).unwrap();

    ConfigManager::add_to_recent_files(&mut data, &mut disk, "a".to_string());
    ConfigManager::add_to_recent_files(&mut data, &mut disk, "b".to_string());
    ConfigManager::add_to_recent_files(&mut data, &mut disk, "c".to_string());
    assert_eq!(
        data.app_config.recent_files,
        vec!["c".to_string(), "b".to_string(), "a".to_string()]
    );

    ConfigManager::add_to_recent_files(&mut data, &mut disk, "a".to_string());
    assert_eq!(
        data.app_config.recent_files,
        vec!["a".to_string(), "c".to_string(), "b".to_string()]
    );
    assert_eq!(data.app_config.recent_files.len(), 3);
}

#[test]
fn add_to_recent_files_twice_in_a_row_changes_nothing_further() {
    let mut data = AppData::new();
    let mut disk = DiskState::empty();
    ConfigManager::load_config(&mut data, &mut disk).unwrap();
    ConfigManager::add_to_recent_files(&mut data, &mut disk, "a".to_string());
    ConfigManager::add_to_recent_files(&mut data, &mut disk, "b".to_string());
    ConfigManager::add_to_recent_files(&mut data, &mut disk, "b".to_string());
    assert_eq!(
        data.app_config.recent_files,
        vec!["b".to_string(), "a".to_string()]
    );
}

#[test]
fn recent_files_cap_drops_oldest_first() {
    let mut data = AppData::new();
    let mut disk = DiskState::empty();
    ConfigManager::load_config(&mut data, &mut disk).unwrap();

    for i in 1..=101 {
        ConfigManager::add_to_recent_files(&mut data, &mut disk, format!("P{}", i));
    }
    assert_eq!(data.app_config.recent_files.len(), 100);
    assert_eq!(data.app_config.recent_files[0], "P101");
    assert_eq!(data.app_config.recent_files[99], "P2");
    assert!(!data.app_config.recent_files.contains(&"P1".to_string()));
    // The persisted record agrees with the in-memory list.
    let main = decode_instance(instance_record(&disk, "main").unwrap()).unwrap();
    assert_eq!(main.recent_files, data.app_config.recent_files);
}

#[test]
fn remove_from_opened_files_drops_the_path() {
    let mut data = AppData::new();
    let mut disk = DiskState::empty();
    ConfigManager::load_config(&mut data, &mut disk).unwrap();
    ConfigManager::add_to_opened_files(&mut data, &mut disk, "a.md".to_string());
    ConfigManager::add_to_opened_files(&mut data, &mut disk, "b.md".to_string());

    ConfigManager::remove_from_opened_files(&mut data, &mut disk, &"a.md".to_string());
    assert_eq!(data.app_config.opened_files, vec!["b.md".to_string()]);

    // Removing an absent path is harmless.
    ConfigManager::remove_from_opened_files(&mut data, &mut disk, &"zzz".to_string());
    assert_eq!(data.app_config.opened_files, vec!["b.md".to_string()]);
}

#[test]
fn clear_opened_files_empties_and_persists() {
    let mut data = AppData::new();
    let mut disk = DiskState::empty();
    ConfigManager::load_config(&mut data, &mut disk).unwrap();
    ConfigManager::add_to_opened_files(&mut data, &mut disk, "a.md".to_string());
    ConfigManager::clear_opened_files(&mut data, &mut disk);
    assert!(data.app_config.opened_files.is_empty());
    let main = decode_instance(instance_record(&disk, "main").unwrap()).unwrap();
    assert!(main.opened_files.is_empty());
}

#[test]
fn set_instance_id_selects_which_record_is_used() {
    let mut data = AppData::new();
    let mut disk = DiskState::empty();
    ConfigManager::set_instance_id(&mut data, "instance_20240101".to_string());
    ConfigManager::load_config(&mut data, &mut disk).unwrap();
    ConfigManager::add_to_opened_files(&mut data, &mut disk, "w.md".to_string());

    assert!(instance_record(&disk, "instance_20240101").is_some());
    let iv = decode_instance(instance_record(&disk, "instance_20240101").unwrap()).unwrap();
    assert_eq!(iv.opened_files, vec!["w.md".to_string()]);
}

#[test]
fn layout_names_match_the_documented_layout() {
    assert_eq!(ConfigManager::config_dir_name(), "FirowNotepad");
    assert_eq!(ConfigManager::global_file_name(), "firow-notepad-global.cfg");
    assert_eq!(ConfigManager::instances_dir_name(), "firow-notepad-instances");
    assert_eq!(ConfigManager::legacy_file_name(), "firow-notepad.cfg");
    assert_eq!(ConfigManager::instance_file_name("main"), "main.cfg");
}

#[test]
fn merge_and_split_lose_nothing() {
    let config = AppConfig {
        colorscheme: "A".to_string(),
        monaco_editor_theme: "B".to_string(),
        recent_files: vec!["r".to_string()],
        opened_files: vec!["o".to_string()],
        font_size: 11,
        word_wrap: true,
        show_invisibles: true,
        transparent_mode: false,
        window_opacity_pct: 55,
    };
    let g = config.to_global();
    let i = config.to_instance();
    let merged = AppConfig::from_global_and_instance(g, i);
    assert_eq!(merged.colorscheme, "A");
    assert_eq!(merged.monaco_editor_theme, "B");
    assert_eq!(merged.recent_files, vec!["r".to_string()]);
    assert_eq!(merged.opened_files, vec!["o".to_string()]);
    assert_eq!(merged.font_size, 11);
    assert!(merged.word_wrap);
    assert!(merged.show_invisibles);
    assert!(!merged.transparent_mode);
    assert_eq!(merged.window_opacity_pct, 55);
}

#[test]
fn well_formedness_check_matches_the_invariants() {
    let mut config = AppConfig::default();
    assert!(config.is_well_formed());
    config.font_size = 0;
    assert!(!config.is_well_formed());
    config.font_size = 14;
    config.window_opacity_pct = 101;
    assert!(!config.is_well_formed());
    config.window_opacity_pct = 85;
    config.opened_files = vec!["a".to_string(), "a".to_string()];
    assert!(!config.is_well_formed());
}
