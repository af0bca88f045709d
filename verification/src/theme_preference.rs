//! The user's light or dark mode choice, saved in the platform's per-user
//! config directory so it carries across launches and projects.
use vstd::prelude::*;
use crate::paths::{join_path, joined_path};
use crate::text::{chars_of, lemma_trim_fixed, spells, trim, trimmed};

verus! {

/// Where the application keeps its per-user files, inside the config directory.
pub const USER_DIR: &'static str = "suspense";

pub const FILE_NAME: &'static str = "theme";

/// A mode of the theme.
#[derive(Clone, Copy, Debug, PartialEq, Eq, Structural)]
pub enum ThemeMode {
    Light,
    Dark,
}

impl ThemeMode {
    pub open spec fn name_text(self) -> Seq<char> {
        match self {
            ThemeMode::Light => "light"@,
            ThemeMode::Dark => "dark"@,
        }
    }

    /// What the mode is saved as.
    pub fn name(self) -> (r: &'static str)
        ensures
            r@ == self.name_text(),
    {
        match self {
            ThemeMode::Light => "light",
            ThemeMode::Dark => "dark",
        }
    }
}

/// The file the choice is saved in, in the config directory, if there is one.
pub fn file(config_dir: Option<&str>) -> (r: Result<String, &'static str>)
    ensures
        match config_dir {
            Some(dir) => r is Ok && r->Ok_0@ == join_path(
                join_path(dir@, USER_DIR@),
                FILE_NAME@,
            ),
            None => r is Err && r->Err_0@ == "no config directory"@,
        },
{
    match config_dir {
        Some(dir) => Ok(joined_path(&joined_path(dir, USER_DIR), FILE_NAME)),
        None => Err("no config directory"),
    }
}

/// The choice that text stands for.
pub open spec fn choice(text: Seq<char>) -> Option<ThemeMode> {
    if trim(text) == "light"@ {
        Some(ThemeMode::Light)
    } else if trim(text) == "dark"@ {
        Some(ThemeMode::Dark)
    } else {
        None
    }
}

/// The choice saved, by what its file holds.
pub fn load(saved: Option<&str>) -> (r: Option<ThemeMode>)
    ensures
        r == (match saved {
            Some(text) => choice(text@),
            None => None,
        }),
{
    match saved {
        Some(text) => {
            let text = trimmed(&chars_of(text));
            if spells(&text, "light") {
                Some(ThemeMode::Light)
            } else if spells(&text, "dark") {
                Some(ThemeMode::Dark)
            } else {
                None
            }
        },
        None => None,
    }
}

/// What the file of the choice is to hold.
pub fn save(mode: ThemeMode) -> (r: &'static str)
    ensures
        r@ == mode.name_text(),
{
    mode.name()
}

/// A saved choice loads back.
pub proof fn a_saved_choice_loads_back(mode: ThemeMode)
    ensures
        choice(mode.name_text()) == Some(mode),
{
    reveal_strlit("light");
    reveal_strlit("dark");
    lemma_trim_fixed(mode.name_text());
    assert("light"@[0] == 'l' && "dark"@[0] == 'd');
}

} // verus!
