//! Shell integration scripts: the initialization code each supported shell
//! evaluates to hook directory visits and define the jump command.

use vstd::prelude::*;

pub mod bash;
pub mod fish;
pub mod zsh;

verus! {

use crate::strutil::{chars_of, eq_chars};
use self::bash::Bash;
use self::fish::Fish;
use self::zsh::Zsh;

/// A shell that pazi can integrate with.
pub trait Shell {
    /// The initialization script for this shell to evaluate.
    fn pazi_init(&self) -> &'static str;
}

/// One of the supported shells, chosen by name at run time.
pub enum AnyShell {
    Bash(Bash),
    Zsh(Zsh),
    Fish(Fish),
}

impl AnyShell {
    /// The initialization script of the chosen shell.
    pub fn pazi_init(&self) -> &'static str {
        match self {
            AnyShell::Bash(s) => s.pazi_init(),
            AnyShell::Zsh(s) => s.pazi_init(),
            AnyShell::Fish(s) => s.pazi_init(),
        }
    }
}

/// Looks a shell up by its conventional name.
pub fn from_name(name: &str) -> (r: Option<AnyShell>)
    ensures
        match r {
            Some(s) => match s {
                AnyShell::Bash(_) => name@ == "bash"@,
                AnyShell::Zsh(_) => name@ == "zsh"@,
                AnyShell::Fish(_) => name@ == "fish"@,
            },
            None => name@ != "bash"@ && name@ != "zsh"@ && name@ != "fish"@,
        },
{
    let nv = chars_of(name);
    let bv = chars_of("bash");
    if eq_chars(&nv, &bv) {
        return Some(AnyShell::Bash(Bash));
    }
    let zv = chars_of("zsh");
    if eq_chars(&nv, &zv) {
        return Some(AnyShell::Zsh(Zsh));
    }
    let fv = chars_of("fish");
    if eq_chars(&nv, &fv) {
        return Some(AnyShell::Fish(Fish));
    }
    None
}

} // verus!
