use firow_notepad::codec::{
    decode_app, decode_global, decode_instance, encode_app, encode_global, encode_instance,
};
use firow_notepad::records::{AppConfig, ConfigError, GlobalConfig, InstanceConfig};

fn sample_global() -> GlobalConfig {
    GlobalConfig {
        colorscheme: "Solarized".to_string(),
        monaco_editor_theme: "hc-black".to_string(),
        font_size: 22,
        word_wrap: true,
        show_invisibles: false,
        transparent_mode: true,
        window_opacity_pct: 40,
    }
}

#[test]
fn global_encode_is_deterministic_text() {
    let text = encode_global(&GlobalConfig::default());
    assert_eq!(
        text,
        "c=FirowNotepad\nt=vs-dark\ns=14\nw=false\ni=false\nm=false\no=85\n"
    );
}

#[test]
fn global_round_trip() {
    let g = sample_global();
    let back = decode_global(&encode_global(&g)).unwrap();
    assert_eq!(back.colorscheme, "Solarized");
    assert_eq!(back.monaco_editor_theme, "hc-black");
    assert_eq!(back.font_size, 22);
    assert!(back.word_wrap);
    assert!(!back.show_invisibles);
    assert!(back.transparent_mode);
    assert_eq!(back.window_opacity_pct, 40);
}

#[test]
fn global_round_trip_with_reserved_characters() {
    let mut g = GlobalConfig::default();
    g.colorscheme = "weird\\name\nwith=signs".to_string();
    let text = encode_global(&g);
    let back = decode_global(&text).unwrap();
    assert_eq!(back.colorscheme, "weird\\name\nwith=signs");
}

#[test]
fn global_decode_empty_text_yields_defaults() {
    let g = decode_global("").unwrap();
    assert_eq!(g.colorscheme, "FirowNotepad");
    assert_eq!(g.monaco_editor_theme, "vs-dark");
    assert_eq!(g.font_size, 14);
    assert!(!g.word_wrap);
    assert_eq!(g.window_opacity_pct, 85);
}

#[test]
fn global_decode_ignores_unknown_keys() {
    let g = decode_global("s=30\nfuture_field=whatever\nz=1\n").unwrap();
    assert_eq!(g.font_size, 30);
    assert_eq!(g.colorscheme, "FirowNotepad");
}

#[test]
fn global_decode_later_scalar_wins() {
    let g = decode_global("s=30\ns=31\n").unwrap();
    assert_eq!(g.font_size, 31);
}

#[test]
fn global_decode_rejects_unterminated_line() {
    assert_eq!(decode_global("s=30"), Err(ConfigError::MalformedConfig));
}

#[test]
fn global_decode_rejects_line_without_separator() {
    assert_eq!(decode_global("s30\n"), Err(ConfigError::MalformedConfig));
}

#[test]
fn global_decode_rejects_bad_number() {
    assert_eq!(decode_global("s=14a\n"), Err(ConfigError::MalformedConfig));
    assert_eq!(decode_global("s=\n"), Err(ConfigError::MalformedConfig));
    assert_eq!(
        decode_global("s=99999999999999999999\n"),
        Err(ConfigError::MalformedConfig)
    );
}

#[test]
fn global_decode_rejects_zero_font_size() {
    assert_eq!(decode_global("s=0\n"), Err(ConfigError::MalformedConfig));
}

#[test]
fn global_decode_rejects_out_of_range_opacity() {
    assert_eq!(decode_global("o=101\n"), Err(ConfigError::MalformedConfig));
    let g = decode_global("o=100\n").unwrap();
    assert_eq!(g.window_opacity_pct, 100);
}

#[test]
fn global_decode_rejects_bad_boolean() {
    assert_eq!(decode_global("w=yes\n"), Err(ConfigError::MalformedConfig));
    assert_eq!(decode_global("w=True\n"), Err(ConfigError::MalformedConfig));
}

#[test]
fn global_decode_rejects_bad_escape() {
    assert_eq!(decode_global("c=a\\\n"), Err(ConfigError::MalformedConfig));
    assert_eq!(decode_global("c=a\\x\n"), Err(ConfigError::MalformedConfig));
}

#[test]
fn instance_encode_is_deterministic_text() {
    let iv = InstanceConfig {
        recent_files: vec!["b.md".to_string(), "a.md".to_string()],
        opened_files: vec!["a.md".to_string()],
    };
    assert_eq!(encode_instance(&iv), "r=b.md\nr=a.md\np=a.md\n");
}

#[test]
fn instance_round_trip() {
    let iv = InstanceConfig {
        recent_files: vec!["one".to_string(), "two".to_string(), "three".to_string()],
        opened_files: vec!["tab one".to_string(), "tab=two".to_string()],
    };
    let back = decode_instance(&encode_instance(&iv)).unwrap();
    assert_eq!(back.recent_files, iv.recent_files);
    assert_eq!(back.opened_files, iv.opened_files);
}

#[test]
fn instance_decode_empty_text_yields_empty_lists() {
    let iv = decode_instance("").unwrap();
    assert!(iv.recent_files.is_empty());
    assert!(iv.opened_files.is_empty());
}

#[test]
fn instance_decode_rejects_duplicate_entries() {
    assert_eq!(
        decode_instance("r=a\nr=a\n"),
        Err(ConfigError::MalformedConfig)
    );
    assert_eq!(
        decode_instance("p=a\np=a\n"),
        Err(ConfigError::MalformedConfig)
    );
}

#[test]
fn instance_decode_rejects_over_long_recent_list() {
    let mut text = String::new();
    for i in 0..101 {
        text.push_str(&format!("r=file{}\n", i));
    }
    assert_eq!(decode_instance(&text), Err(ConfigError::MalformedConfig));
    let mut ok_text = String::new();
    for i in 0..100 {
        ok_text.push_str(&format!("r=file{}\n", i));
    }
    let iv = decode_instance(&ok_text).unwrap();
    assert_eq!(iv.recent_files.len(), 100);
}

#[test]
fn app_round_trip() {
    let a = AppConfig {
        colorscheme: "X".to_string(),
        monaco_editor_theme: "vs".to_string(),
        recent_files: vec!["a.md".to_string()],
        opened_files: vec!["a.md".to_string(), "b.md".to_string()],
        font_size: 20,
        word_wrap: true,
        show_invisibles: true,
        transparent_mode: false,
        window_opacity_pct: 85,
    };
    let back = decode_app(&encode_app(&a)).unwrap();
    assert_eq!(back.colorscheme, "X");
    assert_eq!(back.monaco_editor_theme, "vs");
    assert_eq!(back.recent_files, a.recent_files);
    assert_eq!(back.opened_files, a.opened_files);
    assert_eq!(back.font_size, 20);
    assert!(back.word_wrap);
    assert!(back.show_invisibles);
    assert!(!back.transparent_mode);
    assert_eq!(back.window_opacity_pct, 85);
}

#[test]
fn app_decode_fills_missing_fields_with_defaults() {
    let a = decode_app("c=Custom\nr=recent.md\n").unwrap();
    assert_eq!(a.colorscheme, "Custom");
    assert_eq!(a.monaco_editor_theme, "vs-dark");
    assert_eq!(a.font_size, 14);
    assert_eq!(a.recent_files, vec!["recent.md".to_string()]);
    assert!(a.opened_files.is_empty());
}

#[test]
fn error_messages_are_human_readable() {
    assert_eq!(
        ConfigError::MalformedConfig.message(),
        "malformed configuration record"
    );
    assert_eq!(
        ConfigError::PersistenceError.message(),
        "failed to read or write configuration"
    );
    assert_eq!(ConfigError::PermissionDenied.message(), "permission denied");
    assert_eq!(
        ConfigError::LockError.message(),
        "configuration lock unavailable"
    );
    assert_eq!(
        ConfigError::WatchError.message(),
        "failed to create file watcher"
    );
}
