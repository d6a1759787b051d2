//! The application settings and the integer columns that store them.
use vstd::prelude::*;

verus! {

/// The integer stored for a flag.
pub fn bool_to_i64(value: bool) -> (v: i64)
    ensures
        v == flag_value(value),
{
    if value {
        1
    } else {
        0
    }
}

/// Whether a stored integer means `true`: any non-zero value does.
pub fn i64_to_bool(value: i64) -> (b: bool)
    ensures
        b == (value != 0),
{
    value != 0
}

/// Which entries a context menu offers.
#[derive(Debug, Clone, Copy, PartialEq, Eq, Structural)]
pub struct ContextMenuSettings {
    pub download: bool,
    pub rename: bool,
    pub move_item: bool,
    pub duplicate: bool,
    pub share: bool,
    pub delete: bool,
    pub copy_path: bool,
    pub parquet_to_excel: bool,
}

impl Default for ContextMenuSettings {
    /// Every entry offered.
    fn default() -> (s: Self)
        ensures
            s.download && s.rename && s.move_item && s.duplicate && s.share && s.delete && s.copy_path
                && s.parquet_to_excel,
    {
        ContextMenuSettings {
            download: true,
            rename: true,
            move_item: true,
            duplicate: true,
            share: true,
            delete: true,
            copy_path: true,
            parquet_to_excel: true,
        }
    }
}

/// The context menus of files and of directories.
#[derive(Debug, Clone, Copy, PartialEq, Eq, Structural)]
pub struct AppSettings {
    pub file_context_menu: ContextMenuSettings,
    pub directory_context_menu: ContextMenuSettings,
}

impl Default for AppSettings {
    /// Both menus offering every entry.
    fn default() -> (s: Self)
        ensures
            s.file_context_menu == (ContextMenuSettings {
                download: true,
                rename: true,
                move_item: true,
                duplicate: true,
                share: true,
                delete: true,
                copy_path: true,
                parquet_to_excel: true,
            }),
            s.directory_context_menu == s.file_context_menu,
    {
        AppSettings {
            file_context_menu: ContextMenuSettings::default(),
            directory_context_menu: ContextMenuSettings::default(),
        }
    }
}

/// The stored integer for a flag: 1 for `true`, 0 for `false`.
pub open spec fn flag_value(b: bool) -> i64 {
    if b {
        1
    } else {
        0
    }
}

/// The `f`-th flag of a menu, in column order: download, rename, move, duplicate,
/// share, delete, copy path, Parquet to Excel.
pub open spec fn menu_flag(m: ContextMenuSettings, f: int) -> bool {
    if f == 0 {
        m.download
    } else if f == 1 {
        m.rename
    } else if f == 2 {
        m.move_item
    } else if f == 3 {
        m.duplicate
    } else if f == 4 {
        m.share
    } else if f == 5 {
        m.delete
    } else if f == 6 {
        m.copy_path
    } else {
        m.parquet_to_excel
    }
}

/// The eight stored integers of a menu, in column order.
pub open spec fn menu_columns(m: ContextMenuSettings) -> Seq<i64> {
    Seq::new(8, |f: int| flag_value(menu_flag(m, f)))
}

/// The sixteen stored integers of the settings: the file menu's eight flags, then
/// the directory menu's.
pub open spec fn settings_columns(s: AppSettings) -> Seq<i64> {
    menu_columns(s.file_context_menu) + menu_columns(s.directory_context_menu)
}

proof fn lemma_menu_round_trip(m: ContextMenuSettings, cols: Seq<i64>, at: int)
    requires
        0 <= at,
        at + 8 <= cols.len(),
        cols.subrange(at, at + 8) == menu_columns(m),
    ensures
        menu_from_columns(cols, at) == m,
{
    let c = menu_columns(m);
    assert(cols[at] == c[0]);
    assert(cols[at + 1] == c[1]);
    assert(cols[at + 2] == c[2]);
    assert(cols[at + 3] == c[3]);
    assert(cols[at + 4] == c[4]);
    assert(cols[at + 5] == c[5]);
    assert(cols[at + 6] == c[6]);
    assert(cols[at + 7] == c[7]);
}

proof fn lemma_menu_columns_of(m: ContextMenuSettings, v: Seq<i64>)
    requires
        v.len() == 8,
        v[0] == flag_value(m.download),
        v[1] == flag_value(m.rename),
        v[2] == flag_value(m.move_item),
        v[3] == flag_value(m.duplicate),
        v[4] == flag_value(m.share),
        v[5] == flag_value(m.delete),
        v[6] == flag_value(m.copy_path),
        v[7] == flag_value(m.parquet_to_excel),
    ensures
        v == menu_columns(m),
{
    assert forall|f: int| 0 <= f < 8 implies v[f] == #[trigger] menu_columns(m)[f] by {
        if f == 0 {
        } else if f == 1 {
        } else if f == 2 {
        } else if f == 3 {
        } else if f == 4 {
        } else if f == 5 {
        } else if f == 6 {
        } else {
        }
    }
    assert(v =~= menu_columns(m));
}

/// The menu that eight stored integers from `at` on stand for: non-zero means offered.
pub open spec fn menu_from_columns(cols: Seq<i64>, at: int) -> ContextMenuSettings {
    ContextMenuSettings {
        download: cols[at] != 0,
        rename: cols[at + 1] != 0,
        move_item: cols[at + 2] != 0,
        duplicate: cols[at + 3] != 0,
        share: cols[at + 4] != 0,
        delete: cols[at + 5] != 0,
        copy_path: cols[at + 6] != 0,
        parquet_to_excel: cols[at + 7] != 0,
    }
}

/// The settings that sixteen stored integers stand for.
pub open spec fn settings_from_columns(cols: Seq<i64>) -> AppSettings {
    AppSettings { file_context_menu: menu_from_columns(cols, 0), directory_context_menu: menu_from_columns(cols, 8) }
}

impl AppSettings {
    /// The integers stored for these settings, in column order.
    pub fn to_columns(&self) -> (cols: Vec<i64>)
        ensures
            cols@ == settings_columns(*self),
    {
        let mut file = Self::menu_to_columns(&self.file_context_menu);
        let directory = Self::menu_to_columns(&self.directory_context_menu);
        file.extend_from_slice(directory.as_slice());
        file
    }

    fn menu_to_columns(m: &ContextMenuSettings) -> (cols: Vec<i64>)
        ensures
            cols@ == menu_columns(*m),
    {
        let mut cols: Vec<i64> = Vec::new();
        cols.push(bool_to_i64(m.download));
        cols.push(bool_to_i64(m.rename));
        cols.push(bool_to_i64(m.move_item));
        cols.push(bool_to_i64(m.duplicate));
        cols.push(bool_to_i64(m.share));
        cols.push(bool_to_i64(m.delete));
        cols.push(bool_to_i64(m.copy_path));
        cols.push(bool_to_i64(m.parquet_to_excel));
        proof {
            lemma_menu_columns_of(*m, cols@);
        }
        cols
    }

    /// The settings that the sixteen stored integers `cols` stand for.
    pub fn from_columns(cols: &[i64]) -> (s: AppSettings)
        requires
            cols@.len() == 16,
        ensures
            s == settings_from_columns(cols@),
    {
        AppSettings {
            file_context_menu: ContextMenuSettings {
                download: i64_to_bool(cols[0]),
                rename: i64_to_bool(cols[1]),
                move_item: i64_to_bool(cols[2]),
                duplicate: i64_to_bool(cols[3]),
                share: i64_to_bool(cols[4]),
                delete: i64_to_bool(cols[5]),
                copy_path: i64_to_bool(cols[6]),
                parquet_to_excel: i64_to_bool(cols[7]),
            },
            directory_context_menu: ContextMenuSettings {
                download: i64_to_bool(cols[8]),
                rename: i64_to_bool(cols[9]),
                move_item: i64_to_bool(cols[10]),
                duplicate: i64_to_bool(cols[11]),
                share: i64_to_bool(cols[12]),
                delete: i64_to_bool(cols[13]),
                copy_path: i64_to_bool(cols[14]),
                parquet_to_excel: i64_to_bool(cols[15]),
            },
        }
    }

    /// The settings read back from a settings query: those of the stored row, or
    /// the defaults where there is none.
    pub fn from_stored_row(row: Option<Vec<i64>>) -> (s: AppSettings)
        requires
            row matches Some(cols) ==> cols@.len() == 16,
        ensures
            match row {
                Some(cols) => s == settings_from_columns(cols@),
                None => s == AppSettings::default_spec(),
            },
    {
        match row {
            Some(cols) => AppSettings::from_columns(cols.as_slice()),
            None => AppSettings::default(),
        }
    }

    /// The default settings: both menus offering every entry.
    pub open spec fn default_spec() -> AppSettings {
        let all = ContextMenuSettings {
            download: true,
            rename: true,
            move_item: true,
            duplicate: true,
            share: true,
            delete: true,
            copy_path: true,
            parquet_to_excel: true,
        };
        AppSettings { file_context_menu: all, directory_context_menu: all }
    }
}

/// Settings read back from the integers stored for them are the settings stored.
pub proof fn lemma_settings_round_trip(s: AppSettings)
    ensures
        settings_from_columns(settings_columns(s)) == s,
{
    let c = settings_columns(s);
    assert(c.subrange(0, 8) =~= menu_columns(s.file_context_menu));
    assert(c.subrange(8, 16) =~= menu_columns(s.directory_context_menu));
    lemma_menu_round_trip(s.file_context_menu, c, 0);
    lemma_menu_round_trip(s.directory_context_menu, c, 8);
}

} // verus!
