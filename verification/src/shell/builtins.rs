//! The commands that the shell carries out itself.
use vstd::prelude::*;

use crate::bytes;
use crate::bytes::is_str;

verus! {

/// A command of the shell.
#[derive(Clone, Copy, PartialEq, Eq, Debug, Structural)]
pub enum Builtin {
    Ls,
    Cat,
    Touch,
    Mkdir,
    Mount,
    Umount,
    Echo,
    Clear,
    Wc,
    Hexdump,
    Kill,
    Cd,
    Pwd,
    Cp,
    Mv,
    Rm,
    Rmdir,
    Ps,
    Export,
    Source,
    Jobs,
    Wait,
    Fg,
    Bg,
    Exit,
    Help,
}

/// The name of a command.
pub open spec fn builtin_name(b: Builtin) -> Seq<u8> {
    match b {
        Builtin::Ls => bytes::lit("ls"),
        Builtin::Cat => bytes::lit("cat"),
        Builtin::Touch => bytes::lit("touch"),
        Builtin::Mkdir => bytes::lit("mkdir"),
        Builtin::Mount => bytes::lit("mount"),
        Builtin::Umount => bytes::lit("umount"),
        Builtin::Echo => bytes::lit("echo"),
        Builtin::Clear => bytes::lit("clear"),
        Builtin::Wc => bytes::lit("wc"),
        Builtin::Hexdump => bytes::lit("hexdump"),
        Builtin::Kill => bytes::lit("kill"),
        Builtin::Cd => bytes::lit("cd"),
        Builtin::Pwd => bytes::lit("pwd"),
        Builtin::Cp => bytes::lit("cp"),
        Builtin::Mv => bytes::lit("mv"),
        Builtin::Rm => bytes::lit("rm"),
        Builtin::Rmdir => bytes::lit("rmdir"),
        Builtin::Ps => bytes::lit("ps"),
        Builtin::Export => bytes::lit("export"),
        Builtin::Source => bytes::lit("source"),
        Builtin::Jobs => bytes::lit("jobs"),
        Builtin::Wait => bytes::lit("wait"),
        Builtin::Fg => bytes::lit("fg"),
        Builtin::Bg => bytes::lit("bg"),
        Builtin::Exit => bytes::lit("exit"),
        Builtin::Help => bytes::lit("help"),
    }
}

/// Whether a name is that of a command.
pub open spec fn is_builtin_name(name: Seq<u8>) -> bool {
    exists|b: Builtin| name == #[trigger] builtin_name(b)
}

/// The command with a name.
pub fn builtin(name: &[u8]) -> (r: Option<Builtin>)
    ensures
        match r {
            Some(b) => name@ == builtin_name(b),
            None => !is_builtin_name(name@),
        },
{
    if is_str(name, "ls") {
        return Some(Builtin::Ls);
    }
    if is_str(name, "cat") {
        return Some(Builtin::Cat);
    }
    if is_str(name, "touch") {
        return Some(Builtin::Touch);
    }
    if is_str(name, "mkdir") {
        return Some(Builtin::Mkdir);
    }
    if is_str(name, "mount") {
        return Some(Builtin::Mount);
    }
    if is_str(name, "umount") {
        return Some(Builtin::Umount);
    }
    if is_str(name, "echo") {
        return Some(Builtin::Echo);
    }
    if is_str(name, "clear") {
        return Some(Builtin::Clear);
    }
    if is_str(name, "wc") {
        return Some(Builtin::Wc);
    }
    if is_str(name, "hexdump") {
        return Some(Builtin::Hexdump);
    }
    if is_str(name, "kill") {
        return Some(Builtin::Kill);
    }
    if is_str(name, "cd") {
        return Some(Builtin::Cd);
    }
    if is_str(name, "pwd") {
        return Some(Builtin::Pwd);
    }
    if is_str(name, "cp") {
        return Some(Builtin::Cp);
    }
    if is_str(name, "mv") {
        return Some(Builtin::Mv);
    }
    if is_str(name, "rm") {
        return Some(Builtin::Rm);
    }
    if is_str(name, "rmdir") {
        return Some(Builtin::Rmdir);
    }
    if is_str(name, "ps") {
        return Some(Builtin::Ps);
    }
    if is_str(name, "export") {
        return Some(Builtin::Export);
    }
    if is_str(name, "source") {
        return Some(Builtin::Source);
    }
    if is_str(name, "jobs") {
        return Some(Builtin::Jobs);
    }
    if is_str(name, "wait") {
        return Some(Builtin::Wait);
    }
    if is_str(name, "fg") {
        return Some(Builtin::Fg);
    }
    if is_str(name, "bg") {
        return Some(Builtin::Bg);
    }
    if is_str(name, "exit") {
        return Some(Builtin::Exit);
    }
    if is_str(name, "help") {
        return Some(Builtin::Help);
    }
    assert forall|b: Builtin| name@ != #[trigger] builtin_name(b) by {
        match b {
            Builtin::Ls => {},
            _ => {},
        }
    }
    None
}

/// Whether a name is that of a command.
pub fn is_builtin(name: &[u8]) -> (r: bool)
    ensures
        r == is_builtin_name(name@),
{
    match builtin(name) {
        Some(b) => {
            assert(name@ == builtin_name(b));
            true
        },
        None => false,
    }
}

} // verus!
