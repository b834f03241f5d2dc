//! Zsh integration: a chpwd hook records visits; `z` wraps the jump
//! subcommand and its extended exit codes, with completion support.

use vstd::prelude::*;

verus! {

use super::Shell;

/// The zsh shell.
pub struct Zsh;

impl Shell for Zsh {
    fn pazi_init(&self) -> &'static str {
        r##"
__pazi_add_dir() {
    pazi visit "${PWD}" &!
}

autoload -Uz add-zsh-hook
add-zsh-hook chpwd __pazi_add_dir

pazi_cd() {
    if [ "$#" -eq 0 ]; then pazi view; return $?; fi
    local res
    res="$(__PAZI_EXTENDED_EXITCODES=1 pazi jump "$@")"
    local ret=$?
    case $ret in
    90) echo "${res}";;
    91) cd "${res}";;
    92) echo "${res}" && return 1;;
    93) return 1;;
    *) echo "${res}" && return $ret;;
    esac
}
alias z='pazi_cd'

_pazi_cd() {
  CURRENTWORD="${LBUFFER/* /}${RBUFFER/ */}"
  local suggestions=(${(f)"$(pazi complete zsh -- $CURRENTWORD)"})
  _describe -V -t pazi-dirs 'pazi' suggestions
}

if whence compdef>/dev/null; then
  compdef _pazi_cd pazi_cd 'pazi jump'
  zstyle ':completion::complete:pazi_cd:*:pazi-dirs' matcher 'l:|=* r:|=*'
fi

"##
    }
}

} // verus!
