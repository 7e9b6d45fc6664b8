use vstd::prelude::*;
use vstd::string::*;
use crate::text;

verus! {

broadcast use vstd::string::group_string_axioms;

/// The saved settings: where backups go and where the database is.
pub struct Config {
    pub backup_dest: String,
    pub source_db: String,
}

/// The characters of a `Config`.
pub struct ConfigView {
    pub backup_dest: Seq<char>,
    pub source_db: Seq<char>,
}

impl View for Config {
    type V = ConfigView;

    open spec fn view(&self) -> ConfigView {
        ConfigView { backup_dest: self.backup_dest@, source_db: self.source_db@ }
    }
}

impl Config {
    /// The settings with the two paths given.
    pub fn new(backup_dest: String, source_db: String) -> (r: Self)
        ensures
            r@ == (ConfigView { backup_dest: backup_dest@, source_db: source_db@ }),
    {
        Config { backup_dest, source_db }
    }
}

/// Which of the two paths is being looked for.
#[derive(Debug, Clone, Copy, PartialEq, Eq, Structural)]
pub enum PathKey {
    BackupDest,
    SourceDb,
}

impl PathKey {
    /// The key named `key` in the settings file (`backup_dest` or `source_db`).
    pub fn from_name(key: &str) -> (r: Option<PathKey>)
        ensures
            r == (if key@ == "backup_dest"@ {
                Some(PathKey::BackupDest)
            } else if key@ == "source_db"@ {
                Some(PathKey::SourceDb)
            } else {
                None
            }),
    {
        let k = key.to_owned();
        if k == "backup_dest".to_owned() {
            Some(PathKey::BackupDest)
        } else if k == "source_db".to_owned() {
            Some(PathKey::SourceDb)
        } else {
            None
        }
    }
}

/// The path used when the settings give none.
pub open spec fn default_path(key: PathKey) -> Seq<char> {
    match key {
        PathKey::BackupDest => "D:\\SynologyDriveVoronov\\Копии 1С"@,
        PathKey::SourceDb => "C:\\Users\\Maksim\\Dropbox\\1С бухгалтерия СибПЛК"@,
    }
}

/// The path used when the settings give none.
pub fn default_path_of(key: PathKey) -> (r: String)
    ensures
        r@ == default_path(key),
{
    match key {
        PathKey::BackupDest => "D:\\SynologyDriveVoronov\\Копии 1С".to_owned(),
        PathKey::SourceDb => "C:\\Users\\Maksim\\Dropbox\\1С бухгалтерия СибПЛК".to_owned(),
    }
}

/// The progress line printed while looking for the path.
pub fn step_label(key: PathKey) -> (r: String)
    ensures
        r@ == match key {
            PathKey::BackupDest => "Шаг 1. Поиск пути хранения бэкапов .... "@,
            PathKey::SourceDb => "Шаг 2. Поиск базы данных 1С .... "@,
        },
{
    match key {
        PathKey::BackupDest => "Шаг 1. Поиск пути хранения бэкапов .... ".to_owned(),
        PathKey::SourceDb => "Шаг 2. Поиск базы данных 1С .... ".to_owned(),
    }
}

/// The question asked when the path was not found.
pub fn prompt_label(key: PathKey) -> (r: String)
    ensures
        r@ == match key {
            PathKey::BackupDest => "Введите новый путь для бэкапов: "@,
            PathKey::SourceDb => "Введите новый путь к базе данных 1С: "@,
        },
{
    match key {
        PathKey::BackupDest => "Введите новый путь для бэкапов: ".to_owned(),
        PathKey::SourceDb => "Введите новый путь к базе данных 1С: ".to_owned(),
    }
}

/// The path that the settings give for `key`.
pub open spec fn config_field(c: ConfigView, key: PathKey) -> Seq<char> {
    match key {
        PathKey::BackupDest => c.backup_dest,
        PathKey::SourceDb => c.source_db,
    }
}

/// The settings as loaded, by their characters.
pub open spec fn config_view(config: Option<Config>) -> Option<ConfigView> {
    match config {
        Some(c) => Some(c@),
        None => None,
    }
}

/// The path to try first: the one in the settings, or the default.
pub open spec fn first_path(config: Option<ConfigView>, key: PathKey) -> Seq<char> {
    match config {
        Some(c) => config_field(c, key),
        None => default_path(key),
    }
}

/// The settings to save once the path `path` was found for `key`: none when
/// the settings already hold it; else the settings with `path` for `key` and
/// the other path kept (its default where there were no settings).
pub open spec fn settings_to_save(config: Option<ConfigView>, key: PathKey, path: Seq<char>) -> Option<ConfigView> {
    match config {
        Some(c) => if config_field(c, key) == path {
            None
        } else {
            Some(
                match key {
                    PathKey::BackupDest => ConfigView { backup_dest: path, source_db: c.source_db },
                    PathKey::SourceDb => ConfigView { backup_dest: c.backup_dest, source_db: path },
                },
            )
        },
        None => Some(
            match key {
                PathKey::BackupDest => ConfigView { backup_dest: path, source_db: default_path(PathKey::SourceDb) },
                PathKey::SourceDb => ConfigView { backup_dest: default_path(PathKey::BackupDest), source_db: path },
            },
        ),
    }
}

/// The key of the other path.
pub open spec fn other_key(key: PathKey) -> PathKey {
    match key {
        PathKey::BackupDest => PathKey::SourceDb,
        PathKey::SourceDb => PathKey::BackupDest,
    }
}

/// What is saved when the path `path` was found for `key`: nothing exactly
/// when the loaded settings already hold `path` for `key`; otherwise
/// settings that hold `path` for `key` and, for the other key, the path the
/// loaded settings gave it, or that other key's own default where no
/// settings were loaded.
pub proof fn saving_keeps_the_other_path(config: Option<ConfigView>, key: PathKey, path: Seq<char>)
    ensures
        settings_to_save(config, key, path) is None <==> (config matches Some(c) && config_field(c, key) == path),
        settings_to_save(config, key, path) matches Some(saved) ==> {
            &&& config_field(saved, key) == path
            &&& config_field(saved, other_key(key)) == match config {
                Some(c) => config_field(c, other_key(key)),
                None => default_path(other_key(key)),
            }
        },
{
}

/// The path to try after the user typed `line`: the line trimmed, or the
/// default when that leaves nothing.
pub open spec fn path_from_input(line: Seq<char>, key: PathKey) -> Seq<char> {
    if text::trimmed(line).len() == 0 {
        default_path(key)
    } else {
        text::trimmed(line)
    }
}

/// The search for one of the two paths: the settings as loaded, the key,
/// and the path to try next. The caller checks whether the path exists and
/// either takes it (`on_found`) or asks the user and hands over the answer
/// (`on_input`).
pub struct PathPrompt {
    pub key: PathKey,
    pub config: Option<Config>,
    pub path: String,
}

impl PathPrompt {
    /// Starts the search for `key`, trying the path in the settings first.
    pub fn new(key: PathKey, config: Option<Config>) -> (r: Self)
        ensures
            r.key == key,
            config_view(r.config) == config_view(config),
            r.path@ == first_path(config_view(config), key),
    {
        let path = match &config {
            Some(c) => match key {
                PathKey::BackupDest => c.backup_dest.clone(),
                PathKey::SourceDb => c.source_db.clone(),
            },
            None => default_path_of(key),
        };
        PathPrompt { key, config, path }
    }

    /// The path exists: the settings to save, if they must change (see
    /// `settings_to_save`). The saved settings hold the found path for the key.
    pub fn on_found(&self) -> (r: Option<Config>)
        ensures
            config_view(r) == settings_to_save(config_view(self.config), self.key, self.path@),
            r matches Some(c) ==> config_field(c@, self.key) == self.path@,
    {
        match &self.config {
            Some(c) => {
                let same = match self.key {
                    PathKey::BackupDest => c.backup_dest == self.path,
                    PathKey::SourceDb => c.source_db == self.path,
                };
                if same {
                    None
                } else {
                    match self.key {
                        PathKey::BackupDest => Some(Config::new(self.path.clone(), c.source_db.clone())),
                        PathKey::SourceDb => Some(Config::new(c.backup_dest.clone(), self.path.clone())),
                    }
                }
            },
            None => match self.key {
                PathKey::BackupDest => Some(Config::new(self.path.clone(), default_path_of(PathKey::SourceDb))),
                PathKey::SourceDb => Some(Config::new(default_path_of(PathKey::BackupDest), self.path.clone())),
            },
        }
    }

    /// The path was not found and the user typed `line`: the next path to
    /// try (see `path_from_input`). Key and settings stay.
    pub fn on_input(&mut self, line: &str)
        ensures
            final(self).path@ == path_from_input(line@, old(self).key),
            final(self).key == old(self).key,
            config_view(final(self).config) == config_view(old(self).config),
    {
        let t = text::trim(line);
        if t.as_str().is_empty() {
            self.path = default_path_of(self.key);
        } else {
            self.path = t;
        }
    }
}

} // verus!
