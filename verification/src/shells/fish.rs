//! Fish integration: a PWD watcher records visits and `z` wraps the jump
//! subcommand's extended exit codes.

use vstd::prelude::*;

verus! {

use super::Shell;

/// The fish shell.
pub struct Fish;

impl Shell for Fish {
    fn pazi_init(&self) -> &'static str {
        r##"
function pazi_cd
    if [ (count $argv) -eq 0 ]
        pazi view
        return $status
    else
        set -l res (env __PAZI_EXTENDED_EXITCODES=1 pazi jump $argv)
        set -l ret $status
        switch $ret
        case 90; echo $res
        case 91; cd $res
        case 92; echo $res; and return 1
        case 93; return 1
        case '*'
            echo $res; and return $ret
        end
    end
end

function __pazi_preexec --on-variable PWD
    status --is-command-substitution; and return
    pazi visit (pwd) &; disown 2>/dev/null
end

alias z 'pazi_cd'
"##
    }
}

} // verus!
