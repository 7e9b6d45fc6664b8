use rust_examples::backup::{default_path_of, prompt_label, step_label, Config, PathKey, PathPrompt};

const DEST: &str = r"D:\SynologyDriveVoronov\Копии 1С";
const SRC: &str = r"C:\Users\Maksim\Dropbox\1С бухгалтерия СибПЛК";

#[test]
fn config_new_keeps_both_paths() {
    let c = Config::new("a".to_string(), "b".to_string());
    assert_eq!(c.backup_dest, "a");
    assert_eq!(c.source_db, "b");
}

#[test]
fn keys_by_name() {
    assert_eq!(PathKey::from_name("backup_dest"), Some(PathKey::BackupDest));
    assert_eq!(PathKey::from_name("source_db"), Some(PathKey::SourceDb));
    assert_eq!(PathKey::from_name("other"), None);
}

#[test]
fn defaults_and_labels() {
    assert_eq!(default_path_of(PathKey::BackupDest), DEST);
    assert_eq!(default_path_of(PathKey::SourceDb), SRC);
    assert_eq!(step_label(PathKey::BackupDest), "Шаг 1. Поиск пути хранения бэкапов .... ");
    assert_eq!(prompt_label(PathKey::SourceDb), "Введите новый путь к базе данных 1С: ");
}

#[test]
fn without_settings_the_default_is_tried_and_saved() {
    let p = PathPrompt::new(PathKey::BackupDest, None);
    assert_eq!(p.path, DEST);
    let saved = p.on_found().unwrap();
    assert_eq!(saved.backup_dest, DEST);
    assert_eq!(saved.source_db, SRC);
}

#[test]
fn settings_that_hold_the_path_are_not_saved_again() {
    let cfg = Config::new("/backups".to_string(), "/db".to_string());
    let p = PathPrompt::new(PathKey::SourceDb, Some(cfg));
    assert_eq!(p.path, "/db");
    assert!(p.on_found().is_none());
}

#[test]
fn typed_path_is_trimmed_and_saved_with_the_other_kept() {
    let cfg = Config::new("/backups".to_string(), "/db".to_string());
    let mut p = PathPrompt::new(PathKey::SourceDb, Some(cfg));
    p.on_input("  /new/db \n");
    assert_eq!(p.path, "/new/db");
    let saved = p.on_found().unwrap();
    assert_eq!(saved.backup_dest, "/backups");
    assert_eq!(saved.source_db, "/new/db");
}

#[test]
fn empty_answer_falls_back_to_the_default() {
    let cfg = Config::new("/x".to_string(), "/y".to_string());
    let mut p = PathPrompt::new(PathKey::BackupDest, Some(cfg));
    p.on_input("   \n");
    assert_eq!(p.path, DEST);
    let saved = p.on_found().unwrap();
    assert_eq!(saved.backup_dest, DEST);
    assert_eq!(saved.source_db, "/y");
}
