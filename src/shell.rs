//! What the commands decide: the shell's return code, the group a name
//! selects, and the directive that changes directory to a module.
use crate::config::{is_group_name, ModuleGroup};
use crate::modinfo::ModuleInfo;
use vstd::prelude::*;
use vstd::string::{StrSliceExecFns, StringExecFns};

verus! {

/// How the invoking shell treats what a command printed.
#[derive(Debug, Clone, Copy, PartialEq, Eq, Structural)]
pub enum ShellReturnCode {
    /// Plain text for the user.
    Print,
    /// A directive for the shell to execute.
    Execute,
    /// A failure.
    Error,
}

/// The exit codes that tell the shell each case apart.
pub open spec fn code_of(c: ShellReturnCode) -> i32 {
    match c {
        ShellReturnCode::Print => 0,
        ShellReturnCode::Execute => 27,
        ShellReturnCode::Error => 1,
    }
}

impl ShellReturnCode {
    pub fn code(&self) -> (r: i32)
        ensures
            r == code_of(*self),
    {
        match self {
            ShellReturnCode::Print => 0,
            ShellReturnCode::Execute => 27,
            ShellReturnCode::Error => 1,
        }
    }
}

/// The process's exit code for a command's outcome. In a dry run a directive
/// is reported as plain text; an error of the command is a failure.
pub fn exit_status(dry_run: bool, outcome: &Result<ShellReturnCode, String>) -> (r: i32)
    ensures
        r == match outcome {
            Ok(ShellReturnCode::Execute) => if dry_run {
                0
            } else {
                27
            },
            Ok(c) => code_of(*c),
            Err(_) => 1,
        },
{
    match outcome {
        Ok(ShellReturnCode::Execute) => if dry_run {
            ShellReturnCode::Print.code()
        } else {
            ShellReturnCode::Execute.code()
        },
        Ok(c) => c.code(),
        Err(_) => ShellReturnCode::Error.code(),
    }
}

/// `init` prints no script yet and reports a failure.
pub fn cmd_init() -> (r: Result<ShellReturnCode, String>)
    ensures
        r == Ok::<ShellReturnCode, String>(ShellReturnCode::Error),
{
    Ok(ShellReturnCode::Error)
}

/// `envsetup` does not run the bootstrap text yet and reports a failure.
pub fn cmd_envsetup(_script: &str) -> (r: Result<ShellReturnCode, String>)
    ensures
        r == Ok::<ShellReturnCode, String>(ShellReturnCode::Error),
{
    Ok(ShellReturnCode::Error)
}

/// A name with the sigil `:` names a group; any other name, a module.
pub fn names_group(name: &str) -> (r: bool)
    ensures
        r == is_group_name(name@),
{
    name.unicode_len() > 0 && name.get_char(0) == ':'
}

/// The index of the first group called `name`.
pub fn find_group(groups: &Vec<ModuleGroup>, name: &str) -> (r: Option<usize>)
    ensures
        match r {
            Some(i) => i < groups@.len() && groups@[i as int].name@ == name@ && forall|j: int|
                0 <= j < i ==> (#[trigger] groups@[j]).name@ != name@,
            None => forall|j: int| 0 <= j < groups@.len() ==> (#[trigger] groups@[j]).name@ != name@,
        },
{
    let target = name.to_owned();
    let mut i: usize = 0;
    while i < groups.len()
        invariant
            i <= groups@.len(),
            target@ == name@,
            forall|j: int| 0 <= j < i ==> (#[trigger] groups@[j]).name@ != name@,
        decreases groups@.len() - i,
    {
        if groups[i].name == target {
            return Some(i);
        }
        i += 1;
    }
    None
}

/// `name` appended to the directory `p`: a name that begins with `/` stands
/// alone, and a separator is put in where `p` lacks one.
pub open spec fn joined(p: Seq<char>, name: Seq<char>) -> Seq<char> {
    if name.len() > 0 && name[0] == '/' {
        name
    } else if p.len() == 0 {
        name
    } else if p.last() == '/' {
        p + name
    } else {
        p + "/"@ + name
    }
}

/// The directive that changes directory to a module's source path.
pub open spec fn cd_line(dir: Seq<char>) -> Seq<char> {
    "cd \""@ + dir + "\""@
}

/// `name` appended to the directory `p`.
pub fn join_path(p: &str, name: &str) -> (r: String)
    ensures
        r@ == joined(p@, name@),
{
    if name.unicode_len() > 0 && name.get_char(0) == '/' {
        return name.to_owned();
    }
    let len = p.unicode_len();
    if len == 0 {
        name.to_owned()
    } else if p.get_char(len - 1) == '/' {
        let mut r = p.to_owned();
        r.append(name);
        r
    } else {
        let mut r = p.to_owned();
        r.append("/");
        r.append(name);
        r
    }
}

/// The `cd` directive for a module under the tree `build_top`; fails when the
/// module has more than one source path.
pub fn cd_directive(info: &ModuleInfo, build_top: &str) -> (r: Result<String, String>)
    requires
        info.path@.len() > 0,
    ensures
        info.path@.len() > 1 ==> r is Err && r->Err_0@ == "multiple paths"@,
        info.path@.len() == 1 ==> r is Ok && r->Ok_0@ == cd_line(joined(build_top@, info.path@[0]@)),
{
    if info.path.len() > 1 {
        return Err(String::from_str("multiple paths"));
    }
    let dir = join_path(build_top, info.path[0].as_str());
    let mut line = String::from_str("cd \"");
    line.append(dir.as_str());
    line.append("\"");
    Ok(line)
}

} // verus!
