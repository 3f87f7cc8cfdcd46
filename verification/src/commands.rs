//! The shell's builtins, as functions from their arguments and the shell's
//! state to what they write and how the state changes, and the dispatch of
//! a command line to a builtin or to a program.
use vstd::prelude::*;
use crate::history::{
    history_entries, history_fits, history_listing, history_request, history_request_spec,
    listing, listing_limit, listing_start, HistoryRequest, HistoryRequestView,
};
use crate::jobs::{report_text, BackGroundJobs};
use crate::string_map::{entries_insert, keys_distinct, lemma_insert_then_lookup, lookup, Entries, StringMap};
use crate::text::{chars_of, is_digit, join, join_strings, lemma_decimal_parses_back, push_char, str_is, views};
use rustyline::history::FileHistory;

verus! {

/// What a builtin writes: to its output and to its error stream.
pub struct Written {
    pub out: String,
    pub err: String,
}

impl Written {
    /// Nothing written.
    pub fn nothing() -> (w: Self)
        ensures
            w.out@ == Seq::<char>::empty(),
            w.err@ == Seq::<char>::empty(),
    {
        Written { out: String::new(), err: String::new() }
    }

    /// `text` written to the output.
    pub fn to_out(text: String) -> (w: Self)
        ensures
            w.out@ == text@,
            w.err@ == Seq::<char>::empty(),
    {
        Written { out: text, err: String::new() }
    }

    /// `text` written to the error stream.
    pub fn to_err(text: String) -> (w: Self)
        ensures
            w.out@ == Seq::<char>::empty(),
            w.err@ == text@,
    {
        Written { out: String::new(), err: text }
    }
}

/// The words of `words` from position `from` on, copied.
pub fn words_from(words: &Vec<String>, from: usize) -> (res: Vec<String>)
    requires
        from <= words@.len(),
    ensures
        views(res@) == views(words@).skip(from as int),
{
    let mut res: Vec<String> = Vec::new();
    let mut i = from;
    while i < words.len()
        invariant
            from <= i <= words@.len(),
            views(res@) == views(words@).subrange(from as int, i as int),
        decreases words@.len() - i,
    {
        let ghost before = res@;
        res.push(words[i].clone());
        assert(views(res@) =~= views(before).push(words@[i as int]@));
        assert(views(words@).subrange(from as int, i + 1) =~= views(words@).subrange(
            from as int,
            i as int,
        ).push(words@[i as int]@));
        i = i + 1;
    }
    assert(views(words@).subrange(from as int, words@.len() as int) =~= views(words@).skip(
        from as int,
    ));
    res
}

// ---------------------------------------------------------------- echo

/// What `echo` writes: its arguments separated by spaces, and a newline.
pub open spec fn echo_text(args: Seq<Seq<char>>) -> Seq<char> {
    join(args, " "@) + seq!['\n']
}

/// The line that `echo` writes.
pub fn echo(user_inputs: &Vec<String>) -> (text: String)
    ensures
        text@ == echo_text(views(user_inputs@)),
{
    let mut text = join_strings(user_inputs, 0, " ");
    assert(user_inputs@.subrange(0, user_inputs@.len() as int) =~= user_inputs@);
    push_char(&mut text, '\n');
    text
}

// ---------------------------------------------------------------- type

/// A program found on the search path: its file name, and its full path
/// when that is valid UTF-8.
pub struct Executable {
    pub name: String,
    pub path: Option<String>,
}

impl Executable {
    pub open spec fn view(&self) -> (Seq<char>, Option<Seq<char>>) {
        (
            self.name@,
            match self.path {
                Some(p) => Some(p@),
                None => None,
            },
        )
    }
}

/// The views of a list of programs.
pub open spec fn executable_views(v: Seq<Executable>) -> Seq<(Seq<char>, Option<Seq<char>>)> {
    v.map_values(|e: Executable| e@)
}

/// The position of the first program named `name`, if any.
pub open spec fn first_named(v: Seq<(Seq<char>, Option<Seq<char>>)>, name: Seq<char>) -> Option<int>
    decreases v.len(),
{
    if v.len() == 0 {
        None
    } else {
        match first_named(v.drop_last(), name) {
            Some(i) => Some(i),
            None => if v.last().0 == name {
                Some(v.len() - 1)
            } else {
                None
            },
        }
    }
}

/// What `type` writes for the arguments `args`.
pub open spec fn type_text(
    args: Seq<Seq<char>>,
    builtins: Seq<Seq<char>>,
    executables: Seq<(Seq<char>, Option<Seq<char>>)>,
) -> (Seq<char>, Seq<char>) {
    if args.len() == 0 {
        (Seq::empty(), Seq::empty())
    } else {
        let cmd = args[0];
        if builtins.contains(cmd) {
            (cmd + " is a shell builtin\n"@, Seq::empty())
        } else {
            match first_named(executables, cmd) {
                Some(i) => match executables[i].1 {
                    Some(p) => (cmd + " is "@ + p + seq!['\n'], Seq::empty()),
                    None => (Seq::empty(), cmd + ": not found\n"@),
                },
                None => (Seq::empty(), cmd + ": not found\n"@),
            }
        }
    }
}

/// Whether `name` is one of `list`.
fn contains_string(list: &Vec<String>, name: &String) -> (res: bool)
    ensures
        res == views(list@).contains(name@),
{
    let mut i: usize = 0;
    while i < list.len()
        invariant
            i <= list@.len(),
            forall|k: int| 0 <= k < i ==> list@[k]@ != name@,
        decreases list@.len() - i,
    {
        if list[i] == *name {
            assert(views(list@)[i as int] == name@);
            return true;
        }
        i = i + 1;
    }
    proof {
        if views(list@).contains(name@) {
            let k = choose|k: int| 0 <= k < views(list@).len() && views(list@)[k] == name@;
            assert(list@[k]@ == name@);
        }
    }
    false
}

/// The position of the first program named `name`, if any.
fn find_executable(executables: &Vec<Executable>, name: &String) -> (res: Option<usize>)
    ensures
        match res {
            Some(i) => i < executables@.len() && first_named(executable_views(executables@), name@)
                == Some(i as int),
            None => first_named(executable_views(executables@), name@).is_none(),
        },
{
    let ghost ev = executable_views(executables@);
    let mut i: usize = 0;
    while i < executables.len()
        invariant
            i <= executables@.len(),
            ev == executable_views(executables@),
            first_named(ev.take(i as int), name@).is_none(),
        decreases executables@.len() - i,
    {
        assert(ev.take(i + 1).drop_last() =~= ev.take(i as int));
        if executables[i].name == *name {
            proof {
                lemma_first_named_prefix(ev, name@, i + 1);
            }
            return Some(i);
        }
        i = i + 1;
    }
    assert(ev.take(executables@.len() as int) =~= ev);
    None
}

proof fn lemma_first_named_prefix(v: Seq<(Seq<char>, Option<Seq<char>>)>, name: Seq<char>, k: int)
    requires
        0 < k <= v.len(),
        first_named(v.take(k), name) == Some(k - 1),
    ensures
        first_named(v, name) == Some(k - 1),
    decreases v.len() - k,
{
    if k < v.len() {
        assert(v.drop_last().take(k) =~= v.take(k));
        lemma_first_named_prefix(v.drop_last(), name, k);
    } else {
        assert(v.take(k) =~= v);
    }
}

/// What `type` writes: whether its argument is a builtin, a program found
/// on the search path, or neither.
pub fn type_command(
    user_inputs: &Vec<String>,
    builtins: &Vec<String>,
    executables: &Vec<Executable>,
) -> (w: Written)
    ensures
        (w.out@, w.err@) == type_text(
            views(user_inputs@),
            views(builtins@),
            executable_views(executables@),
        ),
{
    if user_inputs.len() == 0 {
        return Written::nothing();
    }
    let command = &user_inputs[0];
    if contains_string(builtins, command) {
        let mut text = command.clone();
        text.append(" is a shell builtin\n");
        return Written::to_out(text);
    }
    match find_executable(executables, command) {
        Some(i) => match &executables[i].path {
            Some(p) => {
                let mut text = command.clone();
                text.append(" is ");
                text.append(p.as_str());
                push_char(&mut text, '\n');
                Written::to_out(text)
            },
            None => {
                let mut text = command.clone();
                text.append(": not found\n");
                Written::to_err(text)
            },
        },
        None => {
            let mut text = command.clone();
            text.append(": not found\n");
            Written::to_err(text)
        },
    }
}

// ---------------------------------------------------------------- cd

/// Where `cd` goes: its argument, or the home directory (`None`) when it
/// has none or it is `~`.
pub open spec fn cd_target_spec(args: Seq<Seq<char>>) -> Option<Seq<char>> {
    if args.len() > 0 && args[0] != "~"@ {
        Some(args[0])
    } else {
        None
    }
}

/// Where `cd` goes; `None` is the home directory.
pub fn cd_target(user_inputs: &Vec<String>) -> (res: Option<String>)
    ensures
        match res {
            Some(p) => cd_target_spec(views(user_inputs@)) == Some(p@),
            None => cd_target_spec(views(user_inputs@)).is_none(),
        },
{
    if user_inputs.len() > 0 && !str_is(user_inputs[0].as_str(), "~") {
        Some(user_inputs[0].clone())
    } else {
        None
    }
}

/// What `cd` writes when it cannot enter `path`.
pub fn cd_error_line(path: &str) -> (text: String)
    ensures
        text@ == "cd: "@ + path@ + ": No such file or directory\n"@,
{
    let mut text = String::from_str("cd: ");
    text.append(path);
    text.append(": No such file or directory\n");
    text
}

/// What the shell prints when no program is called `command`.
pub fn not_found_line(command: &str) -> (text: String)
    ensures
        text@ == command@ + ": not found\n"@,
{
    let mut text = String::from_str(command);
    text.append(": not found\n");
    text
}

// ---------------------------------------------------------------- declare

/// `Debug` formatting of a string, as `{:?}` writes it: quoted and escaped.
pub uninterp spec fn debug_str(s: Seq<char>) -> Seq<char>;

/// `<str as Debug>::fmt` from std, through `format!("{:?}", ..)`.
#[verifier::external_body]
fn debug_quoted(s: &str) -> (res: String)
    ensures
        res@ == debug_str(s@),
{
    format!("{:?}", s)
}

/// An ASCII letter or `_`.
pub open spec fn is_name_start(c: char) -> bool {
    ('a' <= c <= 'z') || ('A' <= c <= 'Z') || c == '_'
}

/// An ASCII letter, an ASCII digit or `_`.
pub open spec fn is_name_char(c: char) -> bool {
    is_name_start(c) || ('0' <= c <= '9')
}

/// A valid variable name: a letter or `_`, then letters, digits and `_`.
pub open spec fn is_identifier(s: Seq<char>) -> bool {
    s.len() > 0 && is_name_start(s[0]) && forall|i: int|
        1 <= i < s.len() ==> is_name_char(#[trigger] s[i])
}

/// Whether `name` is a valid variable name.
pub fn is_valid_identifier(name: &str) -> (res: bool)
    ensures
        res == is_identifier(name@),
{
    let cs = chars_of(name);
    if cs.len() == 0 {
        return false;
    }
    let c0 = cs[0];
    if !(('a' <= c0 && c0 <= 'z') || ('A' <= c0 && c0 <= 'Z') || c0 == '_') {
        return false;
    }
    let mut i: usize = 1;
    while i < cs.len()
        invariant
            1 <= i <= cs@.len(),
            cs@ == name@,
            forall|k: int| 1 <= k < i ==> is_name_char(#[trigger] cs@[k]),
        decreases cs@.len() - i,
    {
        let c = cs[i];
        if !(('a' <= c && c <= 'z') || ('A' <= c && c <= 'Z') || c == '_' || ('0' <= c && c
            <= '9')) {
            assert(!is_name_char(name@[i as int]));
            return false;
        }
        i = i + 1;
    }
    true
}

/// The position of the first `=` of `s`.
pub open spec fn first_eq(s: Seq<char>) -> int {
    choose|k: int| 0 <= k < s.len() && s[k] == '=' && forall|j: int| 0 <= j < k ==> s[j] != '='
}

/// `s` split at its first `=`, as `str::split_once('=')` splits it.
pub open spec fn split_at_eq(s: Seq<char>) -> Option<(Seq<char>, Seq<char>)> {
    if s.contains('=') {
        Some((s.take(first_eq(s)), s.skip(first_eq(s) + 1)))
    } else {
        None
    }
}

/// Splits `s` at its first `=`.
pub fn split_once_eq(s: &str) -> (res: Option<(String, String)>)
    ensures
        match res {
            Some((a, b)) => split_at_eq(s@) == Some((a@, b@)),
            None => split_at_eq(s@).is_none(),
        },
{
    let cs = chars_of(s);
    let mut i: usize = 0;
    while i < cs.len()
        invariant
            i <= cs@.len(),
            cs@ == s@,
            forall|j: int| 0 <= j < i ==> cs@[j] != '=',
        decreases cs@.len() - i,
    {
        if cs[i] == '=' {
            proof {
                assert(s@[i as int] == '=');
                assert(s@.contains('='));
                let k = first_eq(s@);
                assert(0 <= i < s@.len() && s@[i as int] == '=' && forall|j: int|
                    0 <= j < i ==> s@[j] != '=');
                if k < i {
                    assert(cs@[k] != '=');
                } else if k > i {
                    assert(s@[i as int] != '=');
                }
            }
            let a = crate::text::string_from_chars(&cs, 0, i);
            let b = crate::text::string_from_chars(&cs, i + 1, cs.len());
            assert(cs@.subrange(0, i as int) =~= s@.take(i as int));
            assert(cs@.subrange(i + 1, cs@.len() as int) =~= s@.skip(i + 1));
            return Some((a, b));
        }
        i = i + 1;
    }
    proof {
        if s@.contains('=') {
            let k = choose|k: int| 0 <= k < s@.len() && s@[k] == '=';
            assert(cs@[k] != '=');
        }
    }
    None
}

/// The listing of the variables `e[..k]`: name, `=` and the quoted value,
/// one per line.
pub open spec fn variables_listing(e: Entries, k: int) -> Seq<char>
    decreases k,
{
    if k <= 0 {
        Seq::empty()
    } else {
        variables_listing(e, k - 1) + e[k - 1].0 + seq!['='] + debug_str(e[k - 1].1) + seq![
            '\n',
        ]
    }
}

/// What `declare` does: the variables afterwards, and what it writes.
///
/// `name=value` sets a variable when the name is valid; `-p name` shows one
/// variable; anything else lists them all.
pub open spec fn declare_spec(args: Seq<Seq<char>>, vars: Entries) -> (Entries, Seq<char>, Seq<char>) {
    if args.len() > 0 && split_at_eq(args[0]) is Some {
        let (name, value) = split_at_eq(args[0])->0;
        if is_identifier(name) {
            (entries_insert(vars, name, value), Seq::empty(), Seq::empty())
        } else {
            (
                vars,
                Seq::empty(),
                "declare: `"@ + name + seq!['='] + value + "': not a valid identifier\n"@,
            )
        }
    } else if args.len() > 1 && args[0] == "-p"@ {
        let name = args[1];
        match lookup(vars, name) {
            Some(v) => (vars, "declare -- "@ + name + seq!['='] + debug_str(v) + seq!['\n'], Seq::empty()),
            None => (vars, Seq::empty(), "declare: "@ + name + ": not found\n"@),
        }
    } else {
        (vars, variables_listing(vars, vars.len() as int), Seq::empty())
    }
}

/// The line `declare -p` writes for a variable, given its quoted value.
pub fn declare_p_line(name: &str, quoted: &str) -> (text: String)
    ensures
        text@ == "declare -- "@ + name@ + seq!['='] + quoted@ + seq!['\n'],
{
    let mut text = String::from_str("declare -- ");
    text.append(name);
    push_char(&mut text, '=');
    text.append(quoted);
    push_char(&mut text, '\n');
    text
}

/// The line listing a variable, given its quoted value.
pub fn variable_line(name: &str, quoted: &str) -> (text: String)
    ensures
        text@ == name@ + seq!['='] + quoted@ + seq!['\n'],
{
    let mut text = String::from_str(name);
    push_char(&mut text, '=');
    text.append(quoted);
    push_char(&mut text, '\n');
    text
}

/// Runs `declare` with the arguments `user_inputs` on the variables.
pub fn declare(user_inputs: &Vec<String>, shell_variables: &mut StringMap) -> (w: Written)
    requires
        old(shell_variables).wf(),
    ensures
        final(shell_variables).wf(),
        (final(shell_variables)@, w.out@, w.err@) == declare_spec(
            views(user_inputs@),
            old(shell_variables)@,
        ),
{
    if user_inputs.len() > 0 {
        if let Some((name, value)) = split_once_eq(user_inputs[0].as_str()) {
            if is_valid_identifier(name.as_str()) {
                shell_variables.insert(name.as_str(), value);
                return Written::nothing();
            } else {
                let mut text = String::from_str("declare: `");
                text.append(name.as_str());
                push_char(&mut text, '=');
                text.append(value.as_str());
                text.append("': not a valid identifier\n");
                return Written::to_err(text);
            }
        }
    }
    if user_inputs.len() > 1 && str_is(user_inputs[0].as_str(), "-p") {
        let name = &user_inputs[1];
        match shell_variables.get(name.as_str()) {
            Some(v) => {
                let quoted = debug_quoted(v.as_str());
                Written::to_out(declare_p_line(name.as_str(), quoted.as_str()))
            },
            None => {
                let mut text = String::from_str("declare: ");
                text.append(name.as_str());
                text.append(": not found\n");
                Written::to_err(text)
            },
        }
    } else {
        let ghost e = shell_variables@;
        let n = shell_variables.len();
        let mut text = String::new();
        let mut i: usize = 0;
        while i < n
            invariant
                i <= n,
                n == e.len(),
                e == shell_variables@,
                text@ == variables_listing(e, i as int),
            decreases n - i,
        {
            let (k, v) = shell_variables.entry(i);
            let quoted = debug_quoted(v.as_str());
            let line = variable_line(k.as_str(), quoted.as_str());
            text.append(line.as_str());
            i = i + 1;
            assert(text@ =~= variables_listing(e, i as int));
        }
        Written::to_out(text)
    }
}

// ---------------------------------------------------------------- complete

/// The arguments of `complete` that it handles: `-C script command` or
/// `-p command`.
pub open spec fn complete_supported_spec(args: Seq<Seq<char>>) -> bool {
    ||| args.len() >= 3 && args[0] == "-C"@
    ||| args.len() >= 2 && args[0] == "-p"@
}

/// Whether `complete` handles the arguments `user_inputs`.
pub fn complete_supported(user_inputs: &Vec<String>) -> (res: bool)
    ensures
        res == complete_supported_spec(views(user_inputs@)),
{
    (user_inputs.len() >= 3 && str_is(user_inputs[0].as_str(), "-C")) || (user_inputs.len() >= 2
        && str_is(user_inputs[0].as_str(), "-p"))
}

/// What `complete` does: the completion scripts afterwards, and what it
/// writes.
pub open spec fn complete_spec(args: Seq<Seq<char>>, scripts: Entries) -> (Entries, Seq<char>, Seq<char>) {
    if args.len() >= 3 && args[0] == "-C"@ {
        (entries_insert(scripts, args[2], args[1]), Seq::empty(), Seq::empty())
    } else {
        let command = args[1];
        match lookup(scripts, command) {
            Some(path) => (scripts, "complete -C '"@ + path + "' "@ + command + seq!['\n'], Seq::empty()),
            None => (scripts, Seq::empty(), "complete: "@ + command + ": no completion specification\n"@),
        }
    }
}

/// Runs `complete` with the arguments `user_inputs`: `-C script command`
/// registers a completion script, `-p command` shows it.
pub fn complete(user_inputs: &Vec<String>, completion_scripts: &mut StringMap) -> (w: Written)
    requires
        old(completion_scripts).wf(),
        complete_supported_spec(views(user_inputs@)),
    ensures
        final(completion_scripts).wf(),
        (final(completion_scripts)@, w.out@, w.err@) == complete_spec(
            views(user_inputs@),
            old(completion_scripts)@,
        ),
{
    if user_inputs.len() >= 3 && str_is(user_inputs[0].as_str(), "-C") {
        completion_scripts.insert(user_inputs[2].as_str(), user_inputs[1].clone());
        Written::nothing()
    } else {
        let command = &user_inputs[1];
        match completion_scripts.get(command.as_str()) {
            Some(path) => {
                let mut text = String::from_str("complete -C '");
                text.append(path.as_str());
                text.append("' ");
                text.append(command.as_str());
                push_char(&mut text, '\n');
                Written::to_out(text)
            },
            None => {
                let mut text = String::from_str("complete: ");
                text.append(command.as_str());
                text.append(": no completion specification\n");
                Written::to_err(text)
            },
        }
    }
}

// ---------------------------------------------------------------- jobs

/// What `jobs` writes: every job, done or running; the finished ones are
/// forgotten.
pub fn jobs(background_jobs: &mut BackGroundJobs, finished: &Vec<usize>) -> (text: String)
    requires
        old(background_jobs).wf(),
    ensures
        final(background_jobs).wf(),
        text@ == report_text(
            old(background_jobs).entries(),
            finished@,
            true,
            old(background_jobs).entries().len() as int,
        ),
        final(background_jobs).entries() == crate::jobs::still_running(
            old(background_jobs).entries(),
            finished@,
            old(background_jobs).entries().len() as int,
        ),
        final(background_jobs).next_id() == old(background_jobs).next_id(),
{
    background_jobs.list(finished)
}

// ---------------------------------------------------------------- dispatch

/// What the shell does with a command line once its redirection is taken
/// off.
pub enum CommandAction {
    /// An empty line: nothing.
    Nothing,
    /// `exit`: save the history and leave.
    Exit,
    /// A builtin that only writes: what it writes.
    Write(Written),
    /// `pwd`: print the working directory.
    Pwd,
    /// `cd`: change to this directory, or home (`None`).
    Cd(Option<String>),
    /// `history -r`: load this file into the history.
    HistoryRead(String),
    /// `history -w`: save the history to this file.
    HistoryWrite(String),
    /// `history -a`: append the new entries to this file.
    HistoryAppend(String),
    /// `jobs`: report the background jobs.
    Jobs,
    /// Run a program with these arguments.
    Run(String, Vec<String>),
}

/// A `CommandAction` with its strings as character sequences.
pub enum ActionView {
    Nothing,
    Exit,
    Write(Seq<char>, Seq<char>),
    Pwd,
    Cd(Option<Seq<char>>),
    HistoryRead(Seq<char>),
    HistoryWrite(Seq<char>),
    HistoryAppend(Seq<char>),
    Jobs,
    Run(Seq<char>, Seq<Seq<char>>),
}

impl CommandAction {
    pub open spec fn view(&self) -> ActionView {
        match self {
            CommandAction::Nothing => ActionView::Nothing,
            CommandAction::Exit => ActionView::Exit,
            CommandAction::Write(w) => ActionView::Write(w.out@, w.err@),
            CommandAction::Pwd => ActionView::Pwd,
            CommandAction::Cd(p) => ActionView::Cd(
                match p {
                    Some(p) => Some(p@),
                    None => None,
                },
            ),
            CommandAction::HistoryRead(p) => ActionView::HistoryRead(p@),
            CommandAction::HistoryWrite(p) => ActionView::HistoryWrite(p@),
            CommandAction::HistoryAppend(p) => ActionView::HistoryAppend(p@),
            CommandAction::Jobs => ActionView::Jobs,
            CommandAction::Run(c, args) => ActionView::Run(c@, views(args@)),
        }
    }
}

/// What `history` with the arguments `args` does, given the history's
/// entries.
pub open spec fn history_action(args: Seq<Seq<char>>, entries: Seq<Seq<char>>) -> ActionView {
    match history_request_spec(args) {
        HistoryRequestView::List(count) => ActionView::Write(
            listing(entries, listing_start(entries.len() as int, count), entries.len() as int),
            Seq::empty(),
        ),
        HistoryRequestView::Read(p) => ActionView::HistoryRead(p),
        HistoryRequestView::Write(p) => ActionView::HistoryWrite(p),
        HistoryRequestView::Append(p) => ActionView::HistoryAppend(p),
        HistoryRequestView::MissingPath => ActionView::Write(
            Seq::empty(),
            "history: invalid file path\n"@,
        ),
        HistoryRequestView::InvalidNumber => ActionView::Write(
            Seq::empty(),
            "history: invalid number\n"@,
        ),
    }
}

/// `history` with the arguments `args` asks for a listing.
pub open spec fn lists_history(args: Seq<Seq<char>>) -> bool {
    history_request_spec(args) is List
}

/// What the command line `words` does: the action, and the variables and
/// completion scripts afterwards.
pub open spec fn dispatch_spec(
    words: Seq<Seq<char>>,
    builtins: Seq<Seq<char>>,
    executables: Seq<(Seq<char>, Option<Seq<char>>)>,
    entries: Seq<Seq<char>>,
    vars: Entries,
    scripts: Entries,
) -> (ActionView, Entries, Entries) {
    if words.len() == 0 {
        (ActionView::Nothing, vars, scripts)
    } else {
        let cmd = words[0];
        let args = words.skip(1);
        if cmd == "exit"@ {
            (ActionView::Exit, vars, scripts)
        } else if cmd == "echo"@ {
            (ActionView::Write(echo_text(args), Seq::empty()), vars, scripts)
        } else if cmd == "type"@ {
            let (out, err) = type_text(args, builtins, executables);
            (ActionView::Write(out, err), vars, scripts)
        } else if cmd == "pwd"@ {
            (ActionView::Pwd, vars, scripts)
        } else if cmd == "cd"@ {
            (ActionView::Cd(cd_target_spec(args)), vars, scripts)
        } else if cmd == "history"@ {
            (history_action(args, entries), vars, scripts)
        } else if cmd == "declare"@ {
            let (v, out, err) = declare_spec(args, vars);
            (ActionView::Write(out, err), v, scripts)
        } else if cmd == "jobs"@ {
            (ActionView::Jobs, vars, scripts)
        } else if cmd == "complete"@ {
            let (s, out, err) = complete_spec(args, scripts);
            (ActionView::Write(out, err), vars, s)
        } else {
            (ActionView::Run(cmd, args), vars, scripts)
        }
    }
}

/// The command lines that the shell handles without failing: `complete`
/// with arguments it knows, and a `history` listing of a history short
/// enough to number.
pub open spec fn dispatch_supported(words: Seq<Seq<char>>, entries: Seq<Seq<char>>) -> bool {
    &&& words.len() > 0 && words[0] == "complete"@ ==> complete_supported_spec(words.skip(1))
    &&& words.len() > 0 && words[0] == "history"@ && lists_history(words.skip(1))
        ==> entries.len() < listing_limit()
}

/// Whether the shell handles the command line `user_inputs` without
/// failing.
pub fn dispatch_is_supported(user_inputs: &Vec<String>, history: &FileHistory) -> (res: bool)
    ensures
        res == dispatch_supported(views(user_inputs@), history_entries(*history)),
{
    if user_inputs.len() == 0 {
        return true;
    }
    let args = words_from(user_inputs, 1);
    let cmd = user_inputs[0].as_str();
    proof {
        reveal_strlit("complete");
        reveal_strlit("history");
        assert(views(user_inputs@)[0] == cmd@);
    }
    if str_is(cmd, "complete") {
        complete_supported(&args)
    } else if str_is(cmd, "history") {
        match history_request(&args) {
            HistoryRequest::List(_) => history_fits(history),
            _ => true,
        }
    } else {
        true
    }
}

/// Decides what the command line `user_inputs` does, running the builtins
/// that only compute: `echo`, `type`, `declare`, `complete` and the
/// `history` listing.
pub fn dispatch_command(
    user_inputs: &Vec<String>,
    builtins: &Vec<String>,
    executables: &Vec<Executable>,
    history: &FileHistory,
    shell_variables: &mut StringMap,
    completion_scripts: &mut StringMap,
) -> (action: CommandAction)
    requires
        old(shell_variables).wf(),
        old(completion_scripts).wf(),
        dispatch_supported(views(user_inputs@), history_entries(*history)),
    ensures
        final(shell_variables).wf(),
        final(completion_scripts).wf(),
        (action@, final(shell_variables)@, final(completion_scripts)@) == dispatch_spec(
            views(user_inputs@),
            views(builtins@),
            executable_views(executables@),
            history_entries(*history),
            old(shell_variables)@,
            old(completion_scripts)@,
        ),
{
    if user_inputs.len() == 0 {
        return CommandAction::Nothing;
    }
    let args = words_from(user_inputs, 1);
    let cmd = user_inputs[0].as_str();
    if str_is(cmd, "exit") {
        CommandAction::Exit
    } else if str_is(cmd, "echo") {
        CommandAction::Write(Written::to_out(echo(&args)))
    } else if str_is(cmd, "type") {
        CommandAction::Write(type_command(&args, builtins, executables))
    } else if str_is(cmd, "pwd") {
        CommandAction::Pwd
    } else if str_is(cmd, "cd") {
        CommandAction::Cd(cd_target(&args))
    } else if str_is(cmd, "history") {
        match history_request(&args) {
            HistoryRequest::List(count) => CommandAction::Write(
                Written::to_out(history_listing(history, count)),
            ),
            HistoryRequest::Read(p) => CommandAction::HistoryRead(p),
            HistoryRequest::Write(p) => CommandAction::HistoryWrite(p),
            HistoryRequest::Append(p) => CommandAction::HistoryAppend(p),
            HistoryRequest::MissingPath => CommandAction::Write(
                Written::to_err(String::from_str("history: invalid file path\n")),
            ),
            HistoryRequest::InvalidNumber => CommandAction::Write(
                Written::to_err(String::from_str("history: invalid number\n")),
            ),
        }
    } else if str_is(cmd, "declare") {
        CommandAction::Write(declare(&args, shell_variables))
    } else if str_is(cmd, "jobs") {
        CommandAction::Jobs
    } else if str_is(cmd, "complete") {
        CommandAction::Write(complete(&args, completion_scripts))
    } else {
        CommandAction::Run(user_inputs[0].clone(), args)
    }
}

/// Decides what the command line `user_inputs` does, as `dispatch_command`
/// does, when the shell handles it; `None`, with nothing changed, when it
/// does not.
pub fn try_dispatch_command(
    user_inputs: &Vec<String>,
    builtins: &Vec<String>,
    executables: &Vec<Executable>,
    history: &FileHistory,
    shell_variables: &mut StringMap,
    completion_scripts: &mut StringMap,
) -> (res: Option<CommandAction>)
    requires
        old(shell_variables).wf(),
        old(completion_scripts).wf(),
    ensures
        final(shell_variables).wf(),
        final(completion_scripts).wf(),
        res is None <==> !dispatch_supported(views(user_inputs@), history_entries(*history)),
        res is None ==> final(shell_variables)@ == old(shell_variables)@,
        res is None ==> final(completion_scripts)@ == old(completion_scripts)@,
        res matches Some(action) ==> (action@, final(shell_variables)@, final(completion_scripts)@)
            == dispatch_spec(
            views(user_inputs@),
            views(builtins@),
            executable_views(executables@),
            history_entries(*history),
            old(shell_variables)@,
            old(completion_scripts)@,
        ),
{
    if dispatch_is_supported(user_inputs, history) {
        let action = dispatch_command(
            user_inputs,
            builtins,
            executables,
            history,
            shell_variables,
            completion_scripts,
        );
        Some(action)
    } else {
        None
    }
}

/// The builtins that `type` names as such.
pub fn default_builtins() -> (res: Vec<String>)
    ensures
        views(res@) == seq!["exit"@, "echo"@, "type"@, "pwd"@, "cd"@, "history"@, "declare"@],
{
    let mut res: Vec<String> = Vec::new();
    res.push(String::from_str("exit"));
    res.push(String::from_str("echo"));
    res.push(String::from_str("type"));
    res.push(String::from_str("pwd"));
    res.push(String::from_str("cd"));
    res.push(String::from_str("history"));
    res.push(String::from_str("declare"));
    assert(views(res@) =~= seq!["exit"@, "echo"@, "type"@, "pwd"@, "cd"@, "history"@, "declare"@]);
    res
}

/// Splitting `name=value` at its first `=` gives back `name` and `value`
/// when `name` holds no `=`.
pub proof fn lemma_split_assignment(name: Seq<char>, value: Seq<char>)
    requires
        !name.contains('='),
    ensures
        split_at_eq(name + seq!['='] + value) == Some((name, value)),
{
    let s = name + seq!['='] + value;
    let n = name.len() as int;
    assert(s[n] == '=');
    assert(s.contains('='));
    let k = first_eq(s);
    assert(forall|j: int| 0 <= j < n ==> s[j] != '=') by {
        assert forall|j: int| 0 <= j < n implies s[j] != '=' by {
            assert(s[j] == name[j]);
        }
    }
    assert(0 <= n < s.len() && s[n] == '=' && forall|j: int| 0 <= j < n ==> s[j] != '=');
    if k < n {
        assert(s[k] == name[k]);
    } else if k > n {
        assert(s[n] != '=');
    }
    assert(s.take(n) =~= name);
    assert(s.skip(n + 1) =~= value);
}

/// A variable name holds no `=`.
proof fn lemma_identifier_has_no_equals(name: Seq<char>)
    requires
        is_identifier(name),
    ensures
        !name.contains('='),
{
    if name.contains('=') {
        let k = choose|k: int| 0 <= k < name.len() && name[k] == '=';
        if k > 0 {
            assert(is_name_char(name[k]));
        }
    }
}

/// After `declare name=value` with a valid name, `declare -p name` shows
/// that value.
#[verifier::rlimit(30)]
pub proof fn lemma_declare_then_show(vars: Entries, name: Seq<char>, value: Seq<char>)
    requires
        keys_distinct(vars),
        is_identifier(name),
    ensures
        ({
            let set = declare_spec(seq![name + seq!['='] + value], vars);
            &&& set.0 == entries_insert(vars, name, value)
            &&& set.1 == Seq::<char>::empty() && set.2 == Seq::<char>::empty()
            &&& declare_spec(seq!["-p"@, name], set.0) == (
                set.0,
                "declare -- "@ + name + seq!['='] + debug_str(value) + seq!['\n'],
                Seq::<char>::empty(),
            )
        }),
{
    lemma_identifier_has_no_equals(name);
    lemma_split_assignment(name, value);
    lemma_insert_then_lookup(vars, name, value, name);
    reveal_strlit("-p");
    assert(!"-p"@.contains('=')) by {
        if "-p"@.contains('=') {
            let k = choose|k: int| 0 <= k < "-p"@.len() && "-p"@[k] == '=';
        }
    }
}

/// After `complete -C script command`, `complete -p command` shows that
/// script.
pub proof fn lemma_complete_then_show(scripts: Entries, script: Seq<char>, command: Seq<char>)
    requires
        keys_distinct(scripts),
    ensures
        ({
            let set = complete_spec(seq!["-C"@, script, command], scripts);
            &&& set.0 == entries_insert(scripts, command, script)
            &&& complete_spec(seq!["-p"@, command], set.0) == (
                set.0,
                "complete -C '"@ + script + "' "@ + command + seq!['\n'],
                Seq::<char>::empty(),
            )
        }),
{
    lemma_insert_then_lookup(scripts, command, script, command);
    reveal_strlit("-p");
    reveal_strlit("-C");
}

/// A character that may stand in a variable name: an ASCII letter, an
/// ASCII digit or `_`.
pub open spec fn name_char_allowed(c: char) -> bool {
    ('a' <= c && c <= 'z') || ('A' <= c && c <= 'Z') || ('0' <= c && c <= '9') || c == '_'
}

/// `type` names a builtin as a shell builtin, whatever programs the search
/// path holds, and writes nothing to its error stream.
pub proof fn lemma_type_builtin_first(
    args: Seq<Seq<char>>,
    builtins: Seq<Seq<char>>,
    executables: Seq<(Seq<char>, Option<Seq<char>>)>,
)
    requires
        args.len() > 0,
        builtins.contains(args[0]),
    ensures
        type_text(args, builtins, executables) == (
            args[0] + " is a shell builtin\n"@,
            Seq::<char>::empty(),
        ),
{
}

/// `declare name=value` with a name that is not a variable name (empty,
/// starting with a digit, or holding a character other than an ASCII
/// letter, digit or `_`) sets nothing and reports the assignment on the
/// error stream.
pub proof fn lemma_declare_rejects_bad_name(
    args: Seq<Seq<char>>,
    vars: Entries,
    name: Seq<char>,
    value: Seq<char>,
)
    requires
        args.len() > 0,
        args[0] == name + seq!['='] + value,
        forall|i: int| 0 <= i < name.len() ==> name[i] != '=',
        name.len() == 0 || ('0' <= name[0] && name[0] <= '9') || exists|i: int|
            0 <= i < name.len() && !name_char_allowed(#[trigger] name[i]),
    ensures
        declare_spec(args, vars) == (
            vars,
            Seq::<char>::empty(),
            "declare: `"@ + name + seq!['='] + value + "': not a valid identifier\n"@,
        ),
{
    assert(!name.contains('=')) by {
        if name.contains('=') {
            let k = choose|k: int| 0 <= k < name.len() && name[k] == '=';
            assert(name[k] != '=');
        }
    }
    lemma_split_assignment(name, value);
    assert(!is_identifier(name)) by {
        if name.len() > 0 && !('0' <= name[0] && name[0] <= '9') {
            let i = choose|i: int| 0 <= i < name.len() && !name_char_allowed(#[trigger] name[i]);
            if i == 0 {
                assert(!is_name_start(name[0]));
            } else {
                assert(!is_name_char(name[i]));
            }
        }
    }
}

/// The command words that `dispatch_spec` tells apart differ from each other.
proof fn lemma_command_names_differ()
    ensures
        "exit"@ != "echo"@,
        "exit"@ != "type"@,
        "exit"@ != "pwd"@,
        "exit"@ != "cd"@,
        "exit"@ != "history"@,
        "exit"@ != "declare"@,
        "echo"@ != "type"@,
        "echo"@ != "history"@,
        "echo"@ != "declare"@,
        "type"@ != "history"@,
        "type"@ != "declare"@,
        "pwd"@ != "type"@,
        "pwd"@ != "history"@,
        "pwd"@ != "declare"@,
        "cd"@ != "type"@,
        "cd"@ != "history"@,
        "cd"@ != "declare"@,
        "history"@ != "declare"@,
        "-a"@ != "-r"@,
        "-a"@ != "-w"@,
        "-r"@ != "-w"@,
        "jobs"@ != "exit"@,
        "jobs"@ != "echo"@,
        "jobs"@ != "type"@,
        "jobs"@ != "pwd"@,
        "jobs"@ != "cd"@,
        "jobs"@ != "history"@,
        "jobs"@ != "declare"@,
        "echo"@ != "pwd"@,
        "echo"@ != "cd"@,
        "type"@ != "cd"@,
        "pwd"@ != "cd"@,
        "complete"@ != "exit"@,
        "complete"@ != "echo"@,
        "complete"@ != "type"@,
        "complete"@ != "pwd"@,
        "complete"@ != "cd"@,
        "complete"@ != "history"@,
        "complete"@ != "declare"@,
        "complete"@ != "jobs"@,
{
    reveal_strlit("exit");
    reveal_strlit("echo");
    reveal_strlit("type");
    reveal_strlit("pwd");
    reveal_strlit("cd");
    reveal_strlit("history");
    reveal_strlit("declare");
    reveal_strlit("-a");
    reveal_strlit("-r");
    reveal_strlit("-w");
    reveal_strlit("jobs");
    reveal_strlit("complete");
    assert("jobs"@[0] != "exit"@[0]);
    assert("jobs"@[0] != "echo"@[0]);
    assert("jobs"@[0] != "type"@[0]);
    assert("jobs"@.len() != "pwd"@.len());
    assert("jobs"@.len() != "cd"@.len());
    assert("jobs"@.len() != "history"@.len());
    assert("jobs"@.len() != "declare"@.len());
    assert("echo"@.len() != "pwd"@.len());
    assert("echo"@.len() != "cd"@.len());
    assert("type"@.len() != "cd"@.len());
    assert("pwd"@.len() != "cd"@.len());
    assert("complete"@.len() != "exit"@.len());
    assert("complete"@.len() != "echo"@.len());
    assert("complete"@.len() != "type"@.len());
    assert("complete"@.len() != "pwd"@.len());
    assert("complete"@.len() != "cd"@.len());
    assert("complete"@.len() != "history"@.len());
    assert("complete"@[0] != "declare"@[0]);
    assert("complete"@.len() != "jobs"@.len());
    assert("exit"@[1] != "echo"@[1]);
    assert("exit"@[0] != "type"@[0]);
    assert("exit"@.len() != "pwd"@.len());
    assert("exit"@.len() != "cd"@.len());
    assert("exit"@.len() != "history"@.len());
    assert("exit"@.len() != "declare"@.len());
    assert("echo"@[0] != "type"@[0]);
    assert("echo"@.len() != "history"@.len());
    assert("echo"@.len() != "declare"@.len());
    assert("type"@.len() != "history"@.len());
    assert("type"@.len() != "declare"@.len());
    assert("pwd"@.len() != "type"@.len());
    assert("pwd"@.len() != "history"@.len());
    assert("pwd"@.len() != "declare"@.len());
    assert("cd"@.len() != "type"@.len());
    assert("cd"@.len() != "history"@.len());
    assert("cd"@.len() != "declare"@.len());
    assert("history"@[0] != "declare"@[0]);
    assert("-a"@[1] != "-r"@[1]);
    assert("-a"@[1] != "-w"@[1]);
    assert("-r"@[1] != "-w"@[1]);
}

/// A command line whose first word is `exit` exits, whatever words follow,
/// and changes neither variables nor completion scripts.
pub proof fn lemma_exit_always_exits(
    words: Seq<Seq<char>>,
    builtins: Seq<Seq<char>>,
    executables: Seq<(Seq<char>, Option<Seq<char>>)>,
    entries: Seq<Seq<char>>,
    vars: Entries,
    scripts: Entries,
)
    requires
        words.len() > 0,
        words[0] == "exit"@,
    ensures
        dispatch_spec(words, builtins, executables, entries, vars, scripts) == (
            ActionView::Exit,
            vars,
            scripts,
        ),
{
}

/// `type name` on a builtin writes that it is a shell builtin, whatever
/// programs the search path holds.
pub proof fn lemma_dispatch_type_builtin(
    words: Seq<Seq<char>>,
    builtins: Seq<Seq<char>>,
    executables: Seq<(Seq<char>, Option<Seq<char>>)>,
    entries: Seq<Seq<char>>,
    vars: Entries,
    scripts: Entries,
)
    requires
        words.len() > 1,
        words[0] == "type"@,
        builtins.contains(words[1]),
    ensures
        dispatch_spec(words, builtins, executables, entries, vars, scripts) == (
            ActionView::Write(words[1] + " is a shell builtin\n"@, Seq::<char>::empty()),
            vars,
            scripts,
        ),
{
    lemma_command_names_differ();
    reveal_strlit("echo");
    assert(words.skip(1)[0] == words[1]);
}

/// `history -a path` appends to `path`, `history -w path` writes the whole
/// history to it and `history -r path` reads it; none of them changes the
/// variables or the completion scripts.
pub proof fn lemma_history_file_requests(
    words: Seq<Seq<char>>,
    builtins: Seq<Seq<char>>,
    executables: Seq<(Seq<char>, Option<Seq<char>>)>,
    entries: Seq<Seq<char>>,
    vars: Entries,
    scripts: Entries,
)
    requires
        words.len() > 2,
        words[0] == "history"@,
    ensures
        words[1] == "-a"@ ==> dispatch_spec(words, builtins, executables, entries, vars, scripts)
            == (ActionView::HistoryAppend(words[2]), vars, scripts),
        words[1] == "-w"@ ==> dispatch_spec(words, builtins, executables, entries, vars, scripts)
            == (ActionView::HistoryWrite(words[2]), vars, scripts),
        words[1] == "-r"@ ==> dispatch_spec(words, builtins, executables, entries, vars, scripts)
            == (ActionView::HistoryRead(words[2]), vars, scripts),
{
    lemma_command_names_differ();
    let args = words.skip(1);
    assert(args[0] == words[1] && args[1] == words[2] && args.len() > 1);
}

/// `declare name=value` with a name that is not a variable name writes the
/// error and changes neither variables nor completion scripts.
pub proof fn lemma_dispatch_declare_bad_name(
    words: Seq<Seq<char>>,
    builtins: Seq<Seq<char>>,
    executables: Seq<(Seq<char>, Option<Seq<char>>)>,
    entries: Seq<Seq<char>>,
    vars: Entries,
    scripts: Entries,
    name: Seq<char>,
    value: Seq<char>,
)
    requires
        words.len() > 1,
        words[0] == "declare"@,
        words[1] == name + seq!['='] + value,
        forall|i: int| 0 <= i < name.len() ==> name[i] != '=',
        name.len() == 0 || ('0' <= name[0] && name[0] <= '9') || exists|i: int|
            0 <= i < name.len() && !name_char_allowed(#[trigger] name[i]),
    ensures
        dispatch_spec(words, builtins, executables, entries, vars, scripts) == (
            ActionView::Write(
                Seq::<char>::empty(),
                "declare: `"@ + name + seq!['='] + value + "': not a valid identifier\n"@,
            ),
            vars,
            scripts,
        ),
{
    lemma_command_names_differ();
    let args = words.skip(1);
    assert(args[0] == words[1]);
    lemma_declare_rejects_bad_name(args, vars, name, value);
}

/// `echo` writes its arguments separated by single spaces and ends the
/// line: nothing but the newline for no argument, the word itself for one,
/// and the two words with one space between them for two.
pub proof fn lemma_echo_joins_with_spaces(a: Seq<char>, b: Seq<char>)
    ensures
        echo_text(Seq::empty()) == seq!['\n'],
        echo_text(seq![a]) == a + seq!['\n'],
        echo_text(seq![a, b]) == a + seq![' '] + b + seq!['\n'],
{
    reveal_strlit(" ");
    assert(" "@ =~= seq![' ']);
    assert(seq![a, b].drop_last() =~= seq![a]);
    assert(seq![a, b].last() == b);
    assert(join(seq![a], " "@) == a);
    assert(join(seq![a, b], " "@) == a + " "@ + b);
    assert(echo_text(seq![a, b]) =~= a + seq![' '] + b + seq!['\n']);
    assert(Seq::<char>::empty() + seq!['\n'] =~= seq!['\n']);
}

/// Each builtin that needs no computation is dispatched to its own action,
/// and a first word that names no builtin runs the program of that name
/// with the other words as its arguments; none of these changes variables
/// or completion scripts.
pub proof fn lemma_dispatch_actions(
    words: Seq<Seq<char>>,
    builtins: Seq<Seq<char>>,
    executables: Seq<(Seq<char>, Option<Seq<char>>)>,
    entries: Seq<Seq<char>>,
    vars: Entries,
    scripts: Entries,
)
    requires
        words.len() > 0,
    ensures
        words[0] == "echo"@ ==> dispatch_spec(words, builtins, executables, entries, vars, scripts)
            == (ActionView::Write(echo_text(words.skip(1)), Seq::<char>::empty()), vars, scripts),
        words[0] == "pwd"@ ==> dispatch_spec(words, builtins, executables, entries, vars, scripts)
            == (ActionView::Pwd, vars, scripts),
        words[0] == "jobs"@ ==> dispatch_spec(words, builtins, executables, entries, vars, scripts)
            == (ActionView::Jobs, vars, scripts),
        words[0] == "cd"@ && words.len() > 1 && words[1] != "~"@ ==> dispatch_spec(
            words,
            builtins,
            executables,
            entries,
            vars,
            scripts,
        ) == (ActionView::Cd(Some(words[1])), vars, scripts),
        words[0] == "cd"@ && (words.len() == 1 || words[1] == "~"@) ==> dispatch_spec(
            words,
            builtins,
            executables,
            entries,
            vars,
            scripts,
        ) == (ActionView::Cd(None), vars, scripts),
        words[0] != "exit"@ && words[0] != "echo"@ && words[0] != "type"@ && words[0] != "pwd"@
            && words[0] != "cd"@ && words[0] != "history"@ && words[0] != "declare"@ && words[0]
            != "jobs"@ && words[0] != "complete"@ ==> dispatch_spec(
            words,
            builtins,
            executables,
            entries,
            vars,
            scripts,
        ) == (ActionView::Run(words[0], words.skip(1)), vars, scripts),
{
    lemma_command_names_differ();
    if words.len() > 1 {
        assert(words.skip(1)[0] == words[1]);
    }
}

/// `complete -C script command` registers `script` for `command`, leaves
/// the scripts of other commands and the variables as they were, and
/// writes nothing.
pub proof fn lemma_dispatch_complete_registers(
    words: Seq<Seq<char>>,
    builtins: Seq<Seq<char>>,
    executables: Seq<(Seq<char>, Option<Seq<char>>)>,
    entries: Seq<Seq<char>>,
    vars: Entries,
    scripts: Entries,
    other: Seq<char>,
)
    requires
        keys_distinct(scripts),
        words.len() > 3,
        words[0] == "complete"@,
        words[1] == "-C"@,
    ensures
        ({
            let (action, v, s) = dispatch_spec(words, builtins, executables, entries, vars, scripts);
            &&& action == ActionView::Write(Seq::empty(), Seq::empty())
            &&& v == vars
            &&& lookup(s, words[3]) == Some(words[2])
            &&& other != words[3] ==> lookup(s, other) == lookup(scripts, other)
        }),
{
    lemma_command_names_differ();
    let args = words.skip(1);
    assert(args[0] == words[1] && args[1] == words[2] && args[2] == words[3]);
    lemma_insert_then_lookup(scripts, words[3], words[2], other);
}

/// `history` with a count at least the number of entries lists as much as
/// `history` alone: the whole history; with a count of 0 it lists nothing.
pub proof fn lemma_history_count(entries: Seq<Seq<char>>, n: usize)
    ensures
        n >= entries.len() ==> listing_start(entries.len() as int, Some(n)) == listing_start(
            entries.len() as int,
            None,
        ),
        listing(entries, listing_start(entries.len() as int, Some(0)), entries.len() as int)
            == Seq::<char>::empty(),
        n < entries.len() ==> listing_start(entries.len() as int, Some(n)) == entries.len() - n,
{
}

/// `history -r`, `-w` or `-a` without a file name, and `history` with an
/// argument that is no number, write an error and change nothing.
pub proof fn lemma_history_errors(
    words: Seq<Seq<char>>,
    builtins: Seq<Seq<char>>,
    executables: Seq<(Seq<char>, Option<Seq<char>>)>,
    entries: Seq<Seq<char>>,
    vars: Entries,
    scripts: Entries,
)
    requires
        words.len() > 1,
        words[0] == "history"@,
    ensures
        words.len() == 2 && (words[1] == "-r"@ || words[1] == "-w"@ || words[1] == "-a"@)
            ==> dispatch_spec(words, builtins, executables, entries, vars, scripts) == (
            ActionView::Write(Seq::empty(), "history: invalid file path\n"@),
            vars,
            scripts,
        ),
        words[1] != "-r"@ && words[1] != "-w"@ && words[1] != "-a"@ && (exists|i: int|
            0 <= i < words[1].len() && !is_digit(words[1][i]) && words[1][i] != '+')
            ==> dispatch_spec(words, builtins, executables, entries, vars, scripts) == (
            ActionView::Write(Seq::empty(), "history: invalid number\n"@),
            vars,
            scripts,
        ),
{
    lemma_command_names_differ();
    let args = words.skip(1);
    assert(args[0] == words[1] && args.len() == words.len() - 1);
    lemma_decimal_parses_back(0, words[1]);
}

/// `declare -p name` for a name that no variable has, and `complete -p
/// command` for a command without a script, write an error and change
/// nothing.
pub proof fn lemma_show_unknown_names(
    words: Seq<Seq<char>>,
    builtins: Seq<Seq<char>>,
    executables: Seq<(Seq<char>, Option<Seq<char>>)>,
    entries: Seq<Seq<char>>,
    vars: Entries,
    scripts: Entries,
)
    requires
        words.len() > 2,
        words[1] == "-p"@,
    ensures
        words[0] == "declare"@ && lookup(vars, words[2]) is None ==> dispatch_spec(
            words,
            builtins,
            executables,
            entries,
            vars,
            scripts,
        ) == (
            ActionView::Write(Seq::empty(), "declare: "@ + words[2] + ": not found\n"@),
            vars,
            scripts,
        ),
        words[0] == "complete"@ && lookup(scripts, words[2]) is None ==> dispatch_spec(
            words,
            builtins,
            executables,
            entries,
            vars,
            scripts,
        ) == (
            ActionView::Write(
                Seq::empty(),
                "complete: "@ + words[2] + ": no completion specification\n"@,
            ),
            vars,
            scripts,
        ),
{
    lemma_command_names_differ();
    reveal_strlit("-p");
    reveal_strlit("-C");
    assert("-p"@[1] != "-C"@[1]);
    let args = words.skip(1);
    assert(args[0] == words[1] && args[1] == words[2]);
    assert(!"-p"@.contains('=')) by {
        if "-p"@.contains('=') {
            let k = choose|k: int| 0 <= k < "-p"@.len() && "-p"@[k] == '=';
        }
    }
}

} // verus!
