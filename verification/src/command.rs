//! The command table and the pure command logic: execution results, the
//! registry of built-in commands, the dispatch decision, and the two
//! commands that need no filesystem (`exit` and `echo`).

use vstd::prelude::*;

use crate::text::{chars_to_string, str_eq, str_to_char_vec};

verus! {

/// The result of a command execution: its output and error streams, and
/// whether the shell should terminate.
pub struct CommandResult {
    pub stdout: String,
    pub stderr: String,
    /// If true, the shell should terminate.
    pub should_exit: bool,
}

/// The mathematical value of a [`CommandResult`].
#[verifier::ext_equal]
pub struct CommandResultView {
    pub stdout: Seq<char>,
    pub stderr: Seq<char>,
    pub should_exit: bool,
}

impl View for CommandResult {
    type V = CommandResultView;

    open spec fn view(&self) -> CommandResultView {
        CommandResultView {
            stdout: self.stdout@,
            stderr: self.stderr@,
            should_exit: self.should_exit,
        }
    }
}

impl CommandResult {
    /// An empty result: nothing written, the shell goes on.
    pub fn new() -> (r: Self)
        ensures
            r@ == (CommandResultView {
                stdout: Seq::empty(),
                stderr: Seq::empty(),
                should_exit: false,
            }),
    {
        Self { stdout: String::new(), stderr: String::new(), should_exit: false }
    }

    /// A result that only writes to standard output.
    pub fn with_stdout(stdout: String) -> (r: Self)
        ensures
            r@ == (CommandResultView {
                stdout: stdout@,
                stderr: Seq::empty(),
                should_exit: false,
            }),
    {
        Self { stdout, stderr: String::new(), should_exit: false }
    }

    /// A result that only writes to standard error.
    pub fn with_stderr(stderr: String) -> (r: Self)
        ensures
            r@ == (CommandResultView {
                stdout: Seq::empty(),
                stderr: stderr@,
                should_exit: false,
            }),
    {
        Self { stdout: String::new(), stderr, should_exit: false }
    }

    /// The result that tells the shell to terminate.
    pub fn exit() -> (r: Self)
        ensures
            r@ == (CommandResultView {
                stdout: Seq::empty(),
                stderr: Seq::empty(),
                should_exit: true,
            }),
    {
        Self { stdout: String::new(), stderr: String::new(), should_exit: true }
    }
}

/// One registered command's metadata: its help line and whether it demands
/// at least one positional argument.  The work a command performs on
/// invocation is the dispatcher's business, outside this table.
pub struct Command {
    help: String,
    pub require_args: bool,
}

/// The mathematical value of a [`Command`].
#[verifier::ext_equal]
pub struct CommandView {
    pub help: Seq<char>,
    pub require_args: bool,
}

impl View for Command {
    type V = CommandView;

    closed spec fn view(&self) -> CommandView {
        CommandView { help: self.help@, require_args: self.require_args }
    }
}

impl Command {
    /// A command with the given help line and argument requirement.
    pub fn new(help: &str, require_args: bool) -> (r: Self)
        ensures
            r@ == (CommandView { help: help@, require_args }),
    {
        Self { help: help.to_owned(), require_args }
    }
}

/// The position of `name` in a command table, front to back, or `-1` when
/// the table does not hold it.
pub open spec fn spec_find_name(s: Seq<(Seq<char>, CommandView)>, name: Seq<char>) -> int
    decreases s.len(),
{
    if s.len() == 0 {
        -1
    } else if s.first().0 == name {
        0
    } else {
        let r = spec_find_name(s.drop_first(), name);
        if r < 0 {
            -1
        } else {
            r + 1
        }
    }
}

/// What [`spec_find_name`] finds: the first entry under that name, or the
/// fact that no entry carries it.
pub proof fn lemma_find_name(s: Seq<(Seq<char>, CommandView)>, name: Seq<char>)
    ensures
        spec_find_name(s, name) >= 0 ==> 0 <= spec_find_name(s, name) < s.len()
            && s[spec_find_name(s, name)].0 == name && (forall|j: int|
            0 <= j < spec_find_name(s, name) ==> s[j].0 != name),
        spec_find_name(s, name) < 0 ==> spec_find_name(s, name) == -1 && (forall|j: int|
            0 <= j < s.len() ==> s[j].0 != name),
    decreases s.len(),
{
    if s.len() > 0 && s.first().0 != name {
        lemma_find_name(s.drop_first(), name);
        let r = spec_find_name(s.drop_first(), name);
        if r >= 0 {
            assert(s.drop_first()[r] == s[r + 1]);
            assert forall|j: int| 0 <= j < spec_find_name(s, name) implies s[j].0 != name by {
                if j > 0 {
                    assert(s.drop_first()[j - 1] == s[j]);
                }
            }
        } else {
            assert forall|j: int| 0 <= j < s.len() implies s[j].0 != name by {
                if j > 0 {
                    assert(s.drop_first()[j - 1] == s[j]);
                }
            }
        }
    }
}

/// Collection of registered commands, in registration order, each name
/// held once.
pub struct CommandList {
    cmds: Vec<(String, Command)>,
}

impl View for CommandList {
    type V = Seq<(Seq<char>, CommandView)>;

    closed spec fn view(&self) -> Seq<(Seq<char>, CommandView)> {
        Seq::new(self.cmds@.len(), |i: int| (self.cmds@[i].0@, self.cmds@[i].1@))
    }
}

impl CommandList {
    /// Every registered name appears once.
    pub open spec fn well_formed(&self) -> bool {
        forall|i: int, j: int| 0 <= i < j < self@.len() ==> self@[i].0 != self@[j].0
    }

    /// An empty command table.
    pub fn new() -> (r: Self)
        ensures
            r@ == Seq::<(Seq<char>, CommandView)>::empty(),
            r.well_formed(),
    {
        let r = Self { cmds: Vec::new() };
        proof {
            assert(r@ =~= Seq::<(Seq<char>, CommandView)>::empty());
        }
        r
    }

    /// Registers `cmd` under `name`: a fresh name goes to the end of the
    /// table, and re-registering a name replaces its command in place.
    pub fn register(&mut self, name: String, cmd: Command)
        ensures
            spec_find_name(old(self)@, name@) < 0 ==> final(self)@ == old(self)@.push(
                (name@, cmd@),
            ),
            spec_find_name(old(self)@, name@) >= 0 ==> final(self)@ == old(self)@.update(
                spec_find_name(old(self)@, name@),
                (name@, cmd@),
            ),
            old(self).well_formed() ==> final(self).well_formed(),
    {
        proof {
            lemma_find_name(old(self)@, name@);
        }
        let mut i: usize = 0;
        while i < self.cmds.len()
            invariant
                i <= self.cmds.len(),
                self == old(self),
                forall|j: int| 0 <= j < i ==> old(self)@[j].0 != name@,
            decreases self.cmds.len() - i,
        {
            if str_eq(self.cmds[i].0.as_str(), name.as_str()) {
                proof {
                    lemma_find_name_at(old(self)@, name@, i as int);
                    assert(old(self)@[i as int].0 == name@);
                }
                self.cmds[i] = (name, cmd);
                proof {
                    assert(self@ =~= old(self)@.update(i as int, (name@, cmd@)));
                    if old(self).well_formed() {
                        assert forall|p: int, q: int|
                            0 <= p < q < self@.len() implies self@[p].0 != self@[q].0 by {
                            if p == i {
                                assert(self@[q] == old(self)@[q]);
                                assert(old(self)@[i as int].0 != old(self)@[q].0);
                            } else if q == i {
                                assert(self@[p] == old(self)@[p]);
                            } else {
                                assert(self@[p] == old(self)@[p]);
                                assert(self@[q] == old(self)@[q]);
                            }
                        }
                    }
                }
                return ;
            }
            i = i + 1;
        }
        proof {
            lemma_find_name(old(self)@, name@);
            assert(spec_find_name(old(self)@, name@) < 0) by {
                if spec_find_name(old(self)@, name@) >= 0 {
                    assert(old(self)@[spec_find_name(old(self)@, name@)].0 == name@);
                }
            }
        }
        self.cmds.push((name, cmd));
        proof {
            assert(self@ =~= old(self)@.push((name@, cmd@)));
            assert(old(self).well_formed() ==> self.well_formed()) by {
                if old(self).well_formed() {
                    assert(forall|p: int|
                        0 <= p < self@.len() - 1 ==> self@[p] == old(self)@[p]);
                }
            }
        }
    }
}

/// A found name sits exactly where the scan stopped: when entry `i` bears
/// `name` and no earlier entry does, the find yields `i`.
proof fn lemma_find_name_at(s: Seq<(Seq<char>, CommandView)>, name: Seq<char>, i: int)
    requires
        0 <= i < s.len(),
        s[i].0 == name,
        forall|j: int| 0 <= j < i ==> s[j].0 != name,
    ensures
        spec_find_name(s, name) == i,
    decreases s.len(),
{
    if i > 0 {
        assert(forall|j: int| 0 <= j < s.len() - 1 ==> s.drop_first()[j] == s[j + 1]);
        lemma_find_name_at(s.drop_first(), name, i - 1);
    }
}

/// A run of `n` spaces.
pub open spec fn spaces(n: nat) -> Seq<char>
    decreases n,
{
    if n == 0 {
        Seq::empty()
    } else {
        spaces((n - 1) as nat).push(' ')
    }
}

/// A name padded with spaces to at least `w` characters.
pub open spec fn pad_to(s: Seq<char>, w: nat) -> Seq<char> {
    if s.len() >= w {
        s
    } else {
        s + spaces((w - s.len()) as nat)
    }
}

/// One line of the `help` listing: two spaces, the name padded to ten
/// characters, a dash, the command's help string, a newline.
pub open spec fn spec_help_line(name: Seq<char>, help: Seq<char>) -> Seq<char> {
    "  "@ + pad_to(name, 10) + " - "@ + help + "\n"@
}

/// The `help` lines of a command table, in registration order.
pub open spec fn spec_help_lines(cmds: Seq<(Seq<char>, CommandView)>) -> Seq<char>
    decreases cmds.len(),
{
    if cmds.len() == 0 {
        Seq::empty()
    } else {
        spec_help_lines(cmds.drop_last()) + spec_help_line(
            cmds.last().0,
            cmds.last().1.help,
        )
    }
}

/// The full text the built-in `help` command prints.
pub open spec fn spec_help_text(cmds: Seq<(Seq<char>, CommandView)>) -> Seq<char> {
    "Available commands:\n"@ + spec_help_lines(cmds)
}

/// The stderr line for an unknown command name.
pub open spec fn spec_not_found_message(name: Seq<char>) -> Seq<char> {
    "0-shell: "@ + name + ": command not found"@
}

/// The stdout text for a `--help` or `-h` request on a known command.
pub open spec fn spec_usage_message(help: Seq<char>) -> Seq<char> {
    "Usage: "@ + help + "\n"@
}

/// The stderr text for a command that demands arguments and got none.
pub open spec fn spec_missing_operand_message(name: Seq<char>) -> Seq<char> {
    name + ": missing operand.\nTry 'help' or '"@ + name + " --help' for more information."@
}

/// A help request: some flag is `--help` or `-h`.
pub open spec fn has_help_flag(flags: Seq<Seq<char>>) -> bool {
    exists|i: int| 0 <= i < flags.len() && (flags[i] == "--help"@ || flags[i] == "-h"@)
}

/// What `execute` decides: a finished result to print, or an invocation
/// the dispatcher must carry out.
pub enum Dispatch {
    /// The table settled the call itself: print this result.
    Done(CommandResult),
    /// Hand the call to the named command's handler.
    Invoke { name: String, flags: Vec<String>, args: Vec<String> },
}

impl CommandList {
    /// The `help` listing for the current table.
    fn help_text(&self) -> (r: String)
        ensures
            r@ == spec_help_text(self@),
    {
        let mut out = String::from_str("Available commands:\n");
        let mut i: usize = 0;
        proof {
            assert(self@.take(0) =~= Seq::<(Seq<char>, CommandView)>::empty());
        }
        while i < self.cmds.len()
            invariant
                i <= self.cmds.len(),
                out@ == "Available commands:\n"@ + spec_help_lines(self@.take(i as int)),
            decreases self.cmds.len() - i,
        {
            let ghost pre = out@;
            let ghost name_view = self.cmds@[i as int].0@;
            out.append("  ");
            let n = self.cmds[i].0.unicode_len();
            out.append(self.cmds[i].0.as_str());
            let mut k: usize = n;
            proof {
                assert(spaces(0) =~= Seq::<char>::empty());
                assert(out@ =~= pre + "  "@ + name_view + spaces(0));
            }
            while k < 10
                invariant
                    n <= k,
                    n == name_view.len(),
                    n >= 10 ==> k == n,
                    n < 10 ==> k <= 10,
                    out@ == pre + "  "@ + name_view + spaces((k - n) as nat),
                decreases 10 - k,
            {
                out.append(" ");
                k = k + 1;
                proof {
                    reveal_strlit(" ");
                    assert(out@ =~= pre + "  "@ + name_view + spaces((k - n) as nat));
                }
            }
            proof {
                assert(pad_to(name_view, 10) =~= name_view + spaces(
                    if name_view.len() >= 10 {
                        0
                    } else {
                        (10 - name_view.len()) as nat
                    },
                ));
                assert(out@ =~= pre + "  "@ + pad_to(name_view, 10));
            }
            out.append(" - ");
            out.append(self.cmds[i].1.help.as_str());
            out.append("\n");
            i = i + 1;
            proof {
                assert(self@.take(i as int).drop_last() =~= self@.take(i - 1));
                assert(self@.take(i as int).last() == self@[i - 1]);
                assert(out@ =~= "Available commands:\n"@ + spec_help_lines(self@.take(i as int)));
            }
        }
        proof {
            assert(self@.take(self@.len() as int) =~= self@);
        }
        out
    }

    /// Decides one parsed call against the table.
    ///
    /// `help` lists every command; an unknown name, a `--help`/`-h` flag,
    /// and a missing required argument each settle the call with a printed
    /// result; anything else is handed on as an invocation of the named
    /// command with its flags and arguments.
    pub fn execute(&self, cmd_name: String, flags: Vec<String>, args: Vec<String>) -> (r: Dispatch)
        ensures
            ({
                let idx = spec_find_name(self@, cmd_name@);
                if cmd_name@ == "help"@ {
                    r matches Dispatch::Done(res) && res@ == (CommandResultView {
                        stdout: spec_help_text(self@),
                        stderr: Seq::empty(),
                        should_exit: false,
                    })
                } else if idx < 0 {
                    r matches Dispatch::Done(res) && res@ == (CommandResultView {
                        stdout: Seq::empty(),
                        stderr: spec_not_found_message(cmd_name@),
                        should_exit: false,
                    })
                } else if has_help_flag(flags.deep_view()) {
                    r matches Dispatch::Done(res) && res@ == (CommandResultView {
                        stdout: spec_usage_message(self@[idx].1.help),
                        stderr: Seq::empty(),
                        should_exit: false,
                    })
                } else if self@[idx].1.require_args && args@.len() == 0 {
                    r matches Dispatch::Done(res) && res@ == (CommandResultView {
                        stdout: Seq::empty(),
                        stderr: spec_missing_operand_message(cmd_name@),
                        should_exit: false,
                    })
                } else {
                    r matches Dispatch::Invoke { name, flags: f, args: a } && name@ == cmd_name@
                        && f@ == flags@ && a@ == args@
                }
            }),
    {
        if str_eq(cmd_name.as_str(), "help") {
            return Dispatch::Done(CommandResult::with_stdout(self.help_text()));
        }
        let mut i: usize = 0;
        let mut found = false;
        let mut idx: usize = 0;
        while i < self.cmds.len() && !found
            invariant
                i <= self.cmds.len(),
                !found ==> forall|j: int| 0 <= j < i ==> self@[j].0 != cmd_name@,
                found ==> idx < i <= self.cmds.len() && self@[idx as int].0 == cmd_name@ && (
                forall|j: int| 0 <= j < idx ==> self@[j].0 != cmd_name@),
            decreases self.cmds.len() - i,
        {
            if str_eq(self.cmds[i].0.as_str(), cmd_name.as_str()) {
                found = true;
                idx = i;
            }
            i = i + 1;
        }
        if !found {
            proof {
                lemma_find_name(self@, cmd_name@);
                assert(spec_find_name(self@, cmd_name@) < 0) by {
                    if spec_find_name(self@, cmd_name@) >= 0 {
                        assert(self@[spec_find_name(self@, cmd_name@)].0 == cmd_name@);
                    }
                }
            }
            let msg = String::from_str("0-shell: ").concat(cmd_name.as_str()).concat(
                ": command not found",
            );
            return Dispatch::Done(CommandResult::with_stderr(msg));
        }
        proof {
            lemma_find_name_at(self@, cmd_name@, idx as int);
        }
        let mut k: usize = 0;
        let mut help_requested = false;
        while k < flags.len()
            invariant
                k <= flags.len(),
                help_requested == exists|j: int|
                    0 <= j < k && (flags.deep_view()[j] == "--help"@ || flags.deep_view()[j]
                        == "-h"@),
            decreases flags.len() - k,
        {
            let is_help = str_eq(flags[k].as_str(), "--help") || str_eq(flags[k].as_str(), "-h");
            if is_help {
                help_requested = true;
            }
            proof {
                assert(flags.deep_view()[k as int] == flags@[k as int]@);
            }
            k = k + 1;
        }
        if help_requested {
            let msg = String::from_str("Usage: ").concat(self.cmds[idx].1.help.as_str()).concat(
                "\n",
            );
            return Dispatch::Done(CommandResult::with_stdout(msg));
        }
        if self.cmds[idx].1.require_args && args.len() == 0 {
            let msg = String::from_str(cmd_name.as_str()).concat(
                ": missing operand.\nTry 'help' or '",
            ).concat(cmd_name.as_str()).concat(" --help' for more information.");
            return Dispatch::Done(CommandResult::with_stderr(msg));
        }
        Dispatch::Invoke { name: cmd_name, flags, args }
    }
}

/// The built-in command table, in registration order: each name with its
/// help line and whether it demands at least one positional argument.
pub open spec fn spec_builtin_commands() -> Seq<(Seq<char>, CommandView)> {
    seq![
        ("exit"@, CommandView { help: "exit - cause the shell to exit"@, require_args: false }),
        (
            "echo"@,
            CommandView { help: "echo [-e] [text ...] - display a line of text"@, require_args: false },
        ),
        (
            "pwd"@,
            CommandView {
                help: "pwd - print name of current/working directory"@,
                require_args: false,
            },
        ),
        (
            "cd"@,
            CommandView { help: "cd [DIRECTORY] - change the working directory"@, require_args: false },
        ),
        (
            "mkdir"@,
            CommandView { help: "mkdir DIRECTORY... - create directories"@, require_args: true },
        ),
        (
            "cat"@,
            CommandView {
                help: "cat [FILE...] - concatenate files and print on the standard output"@,
                require_args: false,
            },
        ),
        (
            "cp"@,
            CommandView {
                help: "cp SOURCE DEST or cp SOURCE... DIRECTORY - copy files and directories"@,
                require_args: true,
            },
        ),
        (
            "mv"@,
            CommandView {
                help: "mv SOURCE DEST or mv SOURCE... DIRECTORY - move (rename) files"@,
                require_args: true,
            },
        ),
        (
            "rm"@,
            CommandView { help: "rm [-r] FILE... - remove files or directories"@, require_args: true },
        ),
        (
            "ls"@,
            CommandView {
                help: "ls [-a] [-l] [-F] [FILE...] - list directory contents"@,
                require_args: false,
            },
        ),
    ]
}

/// Creates and registers all available commands.
pub fn command_list() -> (r: CommandList)
    ensures
        r@ == spec_builtin_commands(),
        r.well_formed(),
{
    proof {
        reveal_strlit("exit");
        reveal_strlit("echo");
        reveal_strlit("pwd");
        reveal_strlit("cd");
        reveal_strlit("mkdir");
        reveal_strlit("cat");
        reveal_strlit("cp");
        reveal_strlit("mv");
        reveal_strlit("rm");
        reveal_strlit("ls");
        assert("exit"@.len() == 4 && "echo"@.len() == 4 && "pwd"@.len() == 3 && "cd"@.len() == 2
            && "mkdir"@.len() == 5 && "cat"@.len() == 3 && "cp"@.len() == 2 && "mv"@.len() == 2
            && "rm"@.len() == 2 && "ls"@.len() == 2);
        assert("exit"@[1] == 'x' && "echo"@[1] == 'c');
        assert("pwd"@[0] == 'p' && "cat"@[0] == 'c');
        assert("cd"@[0] == 'c' && "cd"@[1] == 'd' && "cp"@[0] == 'c' && "cp"@[1] == 'p'
            && "mv"@[0] == 'm' && "rm"@[0] == 'r' && "ls"@[0] == 'l');
    }
    let ghost table = spec_builtin_commands();
    let mut cmds = CommandList::new();
    cmds.register(
        "exit".to_owned(),
        Command::new("exit - cause the shell to exit", false),
    );
    proof {
        assert(cmds@ =~= table.take(1));
    }
    cmds.register(
        "echo".to_owned(),
        Command::new("echo [-e] [text ...] - display a line of text", false),
    );
    proof {
        lemma_register_extends(table, 1, "echo"@);
        assert(cmds@ =~= table.take(2));
    }
    cmds.register(
        "pwd".to_owned(),
        Command::new("pwd - print name of current/working directory", false),
    );
    proof {
        lemma_register_extends(table, 2, "pwd"@);
        assert(cmds@ =~= table.take(3));
    }
    cmds.register(
        "cd".to_owned(),
        Command::new("cd [DIRECTORY] - change the working directory", false),
    );
    proof {
        lemma_register_extends(table, 3, "cd"@);
        assert(cmds@ =~= table.take(4));
    }
    cmds.register(
        "mkdir".to_owned(),
        Command::new("mkdir DIRECTORY... - create directories", true),
    );
    proof {
        lemma_register_extends(table, 4, "mkdir"@);
        assert(cmds@ =~= table.take(5));
    }
    cmds.register(
        "cat".to_owned(),
        Command::new("cat [FILE...] - concatenate files and print on the standard output", false),
    );
    proof {
        lemma_register_extends(table, 5, "cat"@);
        assert(cmds@ =~= table.take(6));
    }
    cmds.register(
        "cp".to_owned(),
        Command::new("cp SOURCE DEST or cp SOURCE... DIRECTORY - copy files and directories", true),
    );
    proof {
        lemma_register_extends(table, 6, "cp"@);
        assert(cmds@ =~= table.take(7));
    }
    cmds.register(
        "mv".to_owned(),
        Command::new("mv SOURCE DEST or mv SOURCE... DIRECTORY - move (rename) files", true),
    );
    proof {
        lemma_register_extends(table, 7, "mv"@);
        assert(cmds@ =~= table.take(8));
    }
    cmds.register(
        "rm".to_owned(),
        Command::new("rm [-r] FILE... - remove files or directories", true),
    );
    proof {
        lemma_register_extends(table, 8, "rm"@);
        assert(cmds@ =~= table.take(9));
    }
    cmds.register(
        "ls".to_owned(),
        Command::new("ls [-a] [-l] [-F] [FILE...] - list directory contents", false),
    );
    proof {
        lemma_register_extends(table, 9, "ls"@);
        assert(cmds@ =~= table.take(10));
        assert(table.take(10) =~= table);
    }
    cmds
}

/// Registering a name that a table prefix does not hold extends it: the
/// find over the prefix fails.
proof fn lemma_register_extends(table: Seq<(Seq<char>, CommandView)>, k: int, name: Seq<char>)
    requires
        0 <= k <= table.len(),
        forall|j: int| 0 <= j < k ==> table[j].0 != name,
    ensures
        spec_find_name(table.take(k), name) < 0,
{
    lemma_find_name(table.take(k), name);
    if spec_find_name(table.take(k), name) >= 0 {
        let i = spec_find_name(table.take(k), name);
        assert(table.take(k)[i].0 == name);
        assert(table.take(k)[i] == table[i]);
    }
}

/// Causes the shell to exit.
///
/// Returns the special result that tells the shell to terminate.
pub fn exit_callback(_flags: Vec<String>, _args: Vec<String>) -> (r: CommandResult)
    ensures
        r@ == (CommandResultView {
            stdout: Seq::empty(),
            stderr: Seq::empty(),
            should_exit: true,
        }),
{
    CommandResult::exit()
}

/// The character an `echo -e` escape sequence stands for, or nothing for
/// an unrecognized sequence.
pub open spec fn spec_map_echo_escape(c: char) -> Option<char> {
    if c == 'a' {
        Some('\x07')
    } else if c == 'b' {
        Some('\x08')
    } else if c == 'e' {
        Some('\x1b')
    } else if c == 'f' {
        Some('\x0c')
    } else if c == 'n' {
        Some('\n')
    } else if c == 'r' {
        Some('\r')
    } else if c == 't' {
        Some('\t')
    } else if c == 'v' {
        Some('\x0b')
    } else if c == '\\' {
        Some('\\')
    } else {
        None
    }
}

/// Maps `echo -e` escape sequences to their corresponding characters.
pub fn map_echo_escape(c: char) -> (r: Option<char>)
    ensures
        r == spec_map_echo_escape(c),
{
    match c {
        'a' => Some('\x07'),
        'b' => Some('\x08'),
        'e' => Some('\x1b'),
        'f' => Some('\x0c'),
        'n' => Some('\n'),
        'r' => Some('\r'),
        't' => Some('\t'),
        'v' => Some('\x0b'),
        '\\' => Some('\\'),
        _ => None,
    }
}

/// The arguments joined with single spaces: the text `echo` prints.
pub open spec fn spec_join_spaced(args: Seq<Seq<char>>) -> Seq<char>
    decreases args.len(),
{
    if args.len() == 0 {
        Seq::empty()
    } else if args.len() == 1 {
        args[0]
    } else {
        spec_join_spaced(args.drop_last()) + seq![' '] + args.last()
    }
}

/// Flags contain `-e`: `echo` interprets backslash escape sequences.
pub open spec fn has_e_flag(flags: Seq<Seq<char>>) -> bool {
    exists|i: int| 0 <= i < flags.len() && flags[i] == "-e"@
}

/// What interpreting `echo -e` escapes yields: the expanded text, and
/// whether a `\c` terminator was hit, which stops the output and
/// suppresses the trailing newline.
#[verifier::ext_equal]
pub struct EchoOutput {
    pub text: Seq<char>,
    pub stopped: bool,
}

/// Interprets the `\` escape sequences of `echo -e`: a recognized escape
/// becomes its character, an unrecognized one keeps backslash and
/// character, a trailing backslash stays, and `\c` ends the output.
pub open spec fn spec_echo_expand(s: Seq<char>) -> EchoOutput
    decreases s.len(),
{
    if s.len() == 0 {
        EchoOutput { text: Seq::empty(), stopped: false }
    } else if s.first() != '\\' {
        let rest = spec_echo_expand(s.drop_first());
        EchoOutput { text: seq![s.first()] + rest.text, stopped: rest.stopped }
    } else if s.len() == 1 {
        EchoOutput { text: seq!['\\'], stopped: false }
    } else if s[1] == 'c' {
        EchoOutput { text: Seq::empty(), stopped: true }
    } else {
        let rest = spec_echo_expand(s.skip(2));
        let piece = match spec_map_echo_escape(s[1]) {
            Some(m) => seq![m],
            None => seq!['\\', s[1]],
        };
        EchoOutput { text: piece + rest.text, stopped: rest.stopped }
    }
}

/// Displays a line of text: the arguments joined with single spaces, a
/// newline appended.
///
/// With the `-e` flag the joined text's backslash escape sequences are
/// interpreted first, and a `\c` sequence ends the output with no newline.
#[verifier::loop_isolation(false)]
pub fn echo_callback(flags: Vec<String>, args: Vec<String>) -> (r: CommandResult)
    ensures
        r@.stderr == Seq::<char>::empty(),
        !r@.should_exit,
        !has_e_flag(flags.deep_view()) ==> r@.stdout == spec_join_spaced(args.deep_view())
            + "\n"@,
        has_e_flag(flags.deep_view()) ==> r@.stdout == ({
            let e = spec_echo_expand(spec_join_spaced(args.deep_view()));
            if e.stopped {
                e.text
            } else {
                e.text + "\n"@
            }
        }),
{
    let mut interpret = false;
    let mut k: usize = 0;
    while k < flags.len()
        invariant
            k <= flags.len(),
            interpret == exists|j: int| 0 <= j < k && flags.deep_view()[j] == "-e"@,
        decreases flags.len() - k,
    {
        if str_eq(flags[k].as_str(), "-e") {
            interpret = true;
        }
        proof {
            assert(flags.deep_view()[k as int] == flags@[k as int]@);
        }
        k = k + 1;
    }
    let mut joined: Vec<char> = Vec::new();
    let mut i: usize = 0;
    proof {
        assert(args.deep_view().take(0) =~= Seq::<Seq<char>>::empty());
    }
    while i < args.len()
        invariant
            i <= args.len(),
            joined@ == spec_join_spaced(args.deep_view().take(i as int)),
        decreases args.len() - i,
    {
        let ghost pre = joined@;
        if i > 0 {
            joined.push(' ');
        }
        let mut part = str_to_char_vec(args[i].as_str());
        joined.append(&mut part);
        i = i + 1;
        proof {
            assert(args.deep_view().take(i as int).drop_last() =~= args.deep_view().take(i - 1));
            assert(args.deep_view().take(i as int).last() == args@[i - 1]@);
            if i == 1 {
                assert(joined@ =~= spec_join_spaced(args.deep_view().take(i as int)));
            } else {
                assert(joined@ =~= pre + seq![' '] + args@[i - 1]@);
            }
        }
    }
    proof {
        assert(args.deep_view().take(args.deep_view().len() as int) =~= args.deep_view());
    }
    if !interpret {
        let text = chars_to_string(&joined).concat("\n");
        return CommandResult::with_stdout(text);
    }
    let mut out: Vec<char> = Vec::new();
    let mut p: usize = 0;
    proof {
        assert(joined@.skip(0) =~= joined@);
    }
    while p < joined.len()
        invariant
            p <= joined.len(),
            spec_echo_expand(joined@).text == out@ + spec_echo_expand(
                joined@.skip(p as int),
            ).text,
            spec_echo_expand(joined@).stopped == spec_echo_expand(joined@.skip(p as int)).stopped,
        decreases joined.len() - p,
    {
        let ghost rem = joined@.skip(p as int);
        let c = joined[p];
        proof {
            assert(rem.first() == c);
        }
        if c == '\\' {
            if p + 1 == joined.len() {
                out.push('\\');
                p = p + 1;
                proof {
                    assert(rem.len() == 1);
                    assert(joined@.skip(p as int) =~= Seq::<char>::empty());
                    assert(out@ + Seq::<char>::empty() =~= out@);
                }
            } else {
                let next = joined[p + 1];
                proof {
                    assert(rem[1] == next);
                }
                if next == 'c' {
                    // A stop signal: return immediately, with no newline.
                    proof {
                        assert(spec_echo_expand(rem).stopped);
                        assert(spec_echo_expand(rem).text =~= Seq::<char>::empty());
                        assert(out@ + Seq::<char>::empty() =~= out@);
                    }
                    let text = chars_to_string(&out);
                    return CommandResult::with_stdout(text);
                }
                match map_echo_escape(next) {
                    Some(mapped) => {
                        out.push(mapped);
                    },
                    None => {
                        out.push('\\');
                        out.push(next);
                    },
                }
                p = p + 2;
                proof {
                    assert(rem.skip(2) =~= joined@.skip(p as int));
                    assert(spec_echo_expand(joined@).text == out@ + spec_echo_expand(
                        joined@.skip(p as int),
                    ).text);
                }
            }
        } else {
            out.push(c);
            p = p + 1;
            proof {
                assert(rem.drop_first() =~= joined@.skip(p as int));
                assert(spec_echo_expand(joined@).text == out@ + spec_echo_expand(
                    joined@.skip(p as int),
                ).text);
            }
        }
    }
    proof {
        assert(joined@.skip(joined@.len() as int) =~= Seq::<char>::empty());
        assert(out@ + Seq::<char>::empty() =~= out@);
    }
    let text = chars_to_string(&out).concat("\n");
    CommandResult::with_stdout(text)
}

/// The `rwx` triple for one three-bit permission group.
pub open spec fn spec_rwx(bits: u32) -> Seq<char> {
    if bits == 0 {
        "---"@
    } else if bits == 1 {
        "--x"@
    } else if bits == 2 {
        "-w-"@
    } else if bits == 3 {
        "-wx"@
    } else if bits == 4 {
        "r--"@
    } else if bits == 5 {
        "r-x"@
    } else if bits == 6 {
        "rw-"@
    } else {
        "rwx"@
    }
}

/// The human-readable permission string of a file mode, as `ls -l` prints
/// it: a directory marker and the owner, group and other `rwx` triples.
pub open spec fn spec_permissions(mode: u32) -> Seq<char> {
    (if mode & 0o40000 != 0 {
        "d"@
    } else {
        "-"@
    }) + spec_rwx((mode >> 6) & 7) + spec_rwx((mode >> 3) & 7) + spec_rwx(mode & 7)
}

/// The `rwx` triple for one three-bit permission group.
fn rwx_triple(bits: u32) -> (r: &'static str)
    ensures
        r@ == spec_rwx(bits),
{
    if bits == 0 {
        "---"
    } else if bits == 1 {
        "--x"
    } else if bits == 2 {
        "-w-"
    } else if bits == 3 {
        "-wx"
    } else if bits == 4 {
        "r--"
    } else if bits == 5 {
        "r-x"
    } else if bits == 6 {
        "rw-"
    } else {
        "rwx"
    }
}

/// Generates a human-readable permissions string (e.g. `drwxr-xr-x`) from
/// a file's mode bits.
pub fn parse_permissions(mode: u32) -> (r: String)
    ensures
        r@ == spec_permissions(mode),
{
    let head = if mode & 0o40000 != 0 {
        "d"
    } else {
        "-"
    };
    String::from_str(head).concat(rwx_triple((mode >> 6) & 7)).concat(
        rwx_triple((mode >> 3) & 7),
    ).concat(rwx_triple(mode & 7))
}

/// Whether a file's mode bits carry any execute permission.
pub fn is_executable(mode: u32) -> (r: bool)
    ensures
        r == (mode & 0o111 != 0),
{
    mode & 0o111 != 0
}

} // verus!
