//! Bash integration: hooks PROMPT_COMMAND to record visits and defines the
//! `z` function around pazi's extended exit codes.

use vstd::prelude::*;

verus! {

use super::Shell;

/// The bash shell.
pub struct Bash;

impl Shell for Bash {
    fn pazi_init(&self) -> &'static str {
        r##"
__pazi_add_dir() {
    if [[ "${__PAZI_LAST_PWD}" != "${PWD}" ]]; then
        pazi --add-dir "${PWD}"
    fi
    __PAZI_LAST_PWD="${PWD}"
}

case \$PROMPT_COMMAND in
    *__pazi_add_dir\;*) ;;
    *) PROMPT_COMMAND="__pazi_add_dir;\$PROMPT_COMMMAND" ;;
esac

pazi_cd() {
    if [ "$#" -eq 0 ]; then pazi; return $?; fi
    local res; 
    res="$(__PAZI_EXTENDED_EXITCODES=1 pazi --dir "$@")"
    local ret=$?
    case $ret in
    90) echo "${res}";;
    91) cd "${res}";;
    92) echo "${res}" && return 1;;
    *) echo "${res}" && return $ret;;
    esac
}
alias z='pazi_cd'
"##
    }
}

} // verus!
