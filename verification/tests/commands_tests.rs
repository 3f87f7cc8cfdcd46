use rustyline::history::{FileHistory, History};
use shell::commands::{
    cd_error_line, cd_target, complete, complete_supported, declare, declare_p_line,
    default_builtins, dispatch_command, dispatch_is_supported, echo, is_valid_identifier, jobs,
    not_found_line, split_once_eq, try_dispatch_command, type_command, variable_line, words_from,
    CommandAction,
    Executable,
};
use shell::helper::{finish_file_candidates, script_candidates, Candidate, CompletionRequest, MyHelper};
use shell::history::{
    history_fits, history_listing, history_request, list_entries, strip_history_header,
    HistoryRequest,
};
use shell::jobs::BackGroundJobs;
use shell::string_map::StringMap;

fn strs(v: &[&str]) -> Vec<String> {
    v.iter().map(|s| s.to_string()).collect()
}

fn exe(name: &str, path: Option<&str>) -> Executable {
    Executable { name: name.to_string(), path: path.map(String::from) }
}

#[test]
fn echo_joins_arguments() {
    assert_eq!(echo(&strs(&["hello", "big", "world"])), "hello big world\n");
    assert_eq!(echo(&vec![]), "\n");
}

#[test]
fn type_finds_builtins_then_programs() {
    let builtins = default_builtins();
    let exes = vec![exe("ls", Some("/bin/ls")), exe("ls", Some("/usr/bin/ls")), exe("odd", None)];
    let w = type_command(&strs(&["echo"]), &builtins, &exes);
    assert_eq!((w.out.as_str(), w.err.as_str()), ("echo is a shell builtin\n", ""));
    let w = type_command(&strs(&["ls", "x"]), &builtins, &exes);
    assert_eq!((w.out.as_str(), w.err.as_str()), ("ls is /bin/ls\n", ""));
    let w = type_command(&strs(&["nope"]), &builtins, &exes);
    assert_eq!((w.out.as_str(), w.err.as_str()), ("", "nope: not found\n"));
    let w = type_command(&strs(&["odd"]), &builtins, &exes);
    assert_eq!((w.out.as_str(), w.err.as_str()), ("", "odd: not found\n"));
    let w = type_command(&vec![], &builtins, &exes);
    assert_eq!((w.out.as_str(), w.err.as_str()), ("", ""));
}

#[test]
fn type_does_not_know_jobs_as_builtin() {
    let w = type_command(&strs(&["jobs"]), &default_builtins(), &vec![]);
    assert_eq!(w.err, "jobs: not found\n");
}

#[test]
fn cd_goes_home_without_argument_or_with_tilde() {
    assert_eq!(cd_target(&vec![]), None);
    assert_eq!(cd_target(&strs(&["~"])), None);
    assert_eq!(cd_target(&strs(&["/tmp", "x"])), Some("/tmp".to_string()));
    assert_eq!(cd_target(&strs(&["~/x"])), Some("~/x".to_string()));
    assert_eq!(cd_error_line("/nope"), "cd: /nope: No such file or directory\n");
    assert_eq!(not_found_line("foo"), "foo: not found\n");
}

#[test]
fn identifiers() {
    assert!(is_valid_identifier("_a1"));
    assert!(is_valid_identifier("Abc"));
    assert!(!is_valid_identifier(""));
    assert!(!is_valid_identifier("1a"));
    assert!(!is_valid_identifier("a-b"));
    assert!(!is_valid_identifier("é"));
}

#[test]
fn split_once_at_first_equals() {
    assert_eq!(split_once_eq("a=b=c"), Some(("a".to_string(), "b=c".to_string())));
    assert_eq!(split_once_eq("=x"), Some(("".to_string(), "x".to_string())));
    assert_eq!(split_once_eq("abc"), None);
}

#[test]
fn declare_sets_and_shows_a_variable() {
    let mut vars = StringMap::new();
    let w = declare(&strs(&["x=hello world"]), &mut vars);
    assert_eq!((w.out.as_str(), w.err.as_str()), ("", ""));
    let w = declare(&strs(&["-p", "x"]), &mut vars);
    assert_eq!(w.out, "declare -- x=\"hello world\"\n");
}

#[test]
fn declare_quotes_values_as_debug_does() {
    let mut vars = StringMap::new();
    declare(&strs(&["q=say \"hi\"\\n"]), &mut vars);
    let w = declare(&strs(&["-p", "q"]), &mut vars);
    assert_eq!(w.out, format!("declare -- q={:?}\n", "say \"hi\"\\n"));
}

#[test]
fn declare_rejects_invalid_names() {
    let mut vars = StringMap::new();
    let w = declare(&strs(&["1x=5"]), &mut vars);
    assert_eq!(w.err, "declare: `1x=5': not a valid identifier\n");
    let w = declare(&strs(&["=5"]), &mut vars);
    assert_eq!(w.err, "declare: `=5': not a valid identifier\n");
    assert_eq!(vars.len(), 0);
}

#[test]
fn declare_p_of_unknown_variable() {
    let mut vars = StringMap::new();
    let w = declare(&strs(&["-p", "nope"]), &mut vars);
    assert_eq!((w.out.as_str(), w.err.as_str()), ("", "declare: nope: not found\n"));
}

#[test]
fn declare_lists_all_variables() {
    let mut vars = StringMap::new();
    declare(&strs(&["b=2"]), &mut vars);
    declare(&strs(&["a=1"]), &mut vars);
    declare(&strs(&["b=3"]), &mut vars);
    let w = declare(&vec![], &mut vars);
    assert_eq!(w.out, "b=\"3\"\na=\"1\"\n");
    let w = declare(&strs(&["-p"]), &mut vars);
    assert_eq!(w.out, "b=\"3\"\na=\"1\"\n");
    let w = declare(&strs(&["other"]), &mut vars);
    assert_eq!(w.out, "b=\"3\"\na=\"1\"\n");
}

#[test]
fn declare_line_builders() {
    assert_eq!(declare_p_line("x", "\"1\""), "declare -- x=\"1\"\n");
    assert_eq!(variable_line("x", "\"1\""), "x=\"1\"\n");
}

#[test]
fn complete_registers_and_shows_a_script() {
    let mut scripts = StringMap::new();
    let w = complete(&strs(&["-C", "/bin/comp", "git"]), &mut scripts);
    assert_eq!((w.out.as_str(), w.err.as_str()), ("", ""));
    let w = complete(&strs(&["-p", "git"]), &mut scripts);
    assert_eq!(w.out, "complete -C '/bin/comp' git\n");
    let w = complete(&strs(&["-p", "svn"]), &mut scripts);
    assert_eq!(w.err, "complete: svn: no completion specification\n");
}

#[test]
fn complete_supported_arguments() {
    assert!(complete_supported(&strs(&["-C", "a", "b"])));
    assert!(complete_supported(&strs(&["-p", "a"])));
    assert!(!complete_supported(&strs(&["-C", "a"])));
    assert!(!complete_supported(&strs(&["-p"])));
    assert!(!complete_supported(&strs(&["-x", "a"])));
    assert!(!complete_supported(&vec![]));
}

#[test]
fn jobs_builtin_lists() {
    let mut j = BackGroundJobs::new();
    j.append(&strs(&["sleep", "5"]));
    let pad = " ".repeat(17);
    assert_eq!(jobs(&mut j, &vec![1]), format!("[1]+  Done{pad}sleep 5\n"));
    assert_eq!(jobs(&mut j, &vec![]), "");
}

#[test]
fn history_requests() {
    assert_eq!(history_request(&vec![]), HistoryRequest::List(None));
    assert_eq!(history_request(&strs(&["3"])), HistoryRequest::List(Some(3)));
    assert_eq!(history_request(&strs(&["-r", "f"])), HistoryRequest::Read("f".to_string()));
    assert_eq!(history_request(&strs(&["-w", "f"])), HistoryRequest::Write("f".to_string()));
    assert_eq!(history_request(&strs(&["-a", "f"])), HistoryRequest::Append("f".to_string()));
    assert_eq!(history_request(&strs(&["-a"])), HistoryRequest::MissingPath);
    assert_eq!(history_request(&strs(&["x"])), HistoryRequest::InvalidNumber);
    assert_eq!(history_request(&strs(&["-1"])), HistoryRequest::InvalidNumber);
}

#[test]
fn history_listing_numbers_entries() {
    let entries = strs(&["ls", "pwd", "echo hi"]);
    assert_eq!(list_entries(&entries, None), "1 ls\n2 pwd\n3 echo hi\n");
    assert_eq!(list_entries(&entries, Some(2)), "2 pwd\n3 echo hi\n");
    assert_eq!(list_entries(&entries, Some(0)), "");
    assert_eq!(list_entries(&entries, Some(10)), "1 ls\n2 pwd\n3 echo hi\n");
}

fn history_with(lines: &[&str]) -> FileHistory {
    let mut h = FileHistory::new();
    for l in lines {
        h.add(l).unwrap();
    }
    h
}

#[test]
fn history_listing_reads_the_editor_history() {
    let h = history_with(&["ls", "pwd", "cd /"]);
    assert!(history_fits(&h));
    assert_eq!(history_listing(&h, None), "1 ls\n2 pwd\n3 cd /\n");
    assert_eq!(history_listing(&h, Some(1)), "3 cd /\n");
}

#[test]
fn history_file_header_is_dropped() {
    assert_eq!(strip_history_header("#V2\nls\npwd\n"), "ls\npwd\n");
    assert_eq!(strip_history_header("a\r\n#V2\nb"), "a\nb\n");
    assert_eq!(strip_history_header(""), "");
}

#[test]
fn words_after_the_command() {
    assert_eq!(words_from(&strs(&["a", "b", "c"]), 1), strs(&["b", "c"]));
    assert_eq!(words_from(&strs(&["a"]), 1), Vec::<String>::new());
}

fn run(
    line: &[&str],
    history: &FileHistory,
    vars: &mut StringMap,
    scripts: &mut StringMap,
) -> CommandAction {
    let words = strs(line);
    assert!(dispatch_is_supported(&words, history));
    dispatch_command(&words, &default_builtins(), &vec![exe("ls", Some("/bin/ls"))], history, vars, scripts)
}

fn written(a: CommandAction) -> (String, String) {
    match a {
        CommandAction::Write(w) => (w.out, w.err),
        _ => panic!("expected output"),
    }
}

#[test]
fn dispatch_runs_builtins() {
    let h = history_with(&["echo a", "echo b"]);
    let mut vars = StringMap::new();
    let mut scripts = StringMap::new();
    assert!(matches!(run(&[], &h, &mut vars, &mut scripts), CommandAction::Nothing));
    assert!(matches!(run(&["exit"], &h, &mut vars, &mut scripts), CommandAction::Exit));
    assert!(matches!(run(&["pwd"], &h, &mut vars, &mut scripts), CommandAction::Pwd));
    assert!(matches!(run(&["jobs"], &h, &mut vars, &mut scripts), CommandAction::Jobs));
    assert_eq!(written(run(&["echo", "x", "y"], &h, &mut vars, &mut scripts)), ("x y\n".to_string(), String::new()));
    assert_eq!(written(run(&["type", "ls"], &h, &mut vars, &mut scripts)).0, "ls is /bin/ls\n");
    assert_eq!(written(run(&["history"], &h, &mut vars, &mut scripts)).0, "1 echo a\n2 echo b\n");
    assert_eq!(written(run(&["history", "1"], &h, &mut vars, &mut scripts)).0, "2 echo b\n");
    assert_eq!(written(run(&["history", "z"], &h, &mut vars, &mut scripts)).1, "history: invalid number\n");
    assert_eq!(written(run(&["history", "-r"], &h, &mut vars, &mut scripts)).1, "history: invalid file path\n");
    match run(&["history", "-w", "/tmp/h"], &h, &mut vars, &mut scripts) {
        CommandAction::HistoryWrite(p) => assert_eq!(p, "/tmp/h"),
        _ => panic!("expected a write"),
    }
    match run(&["cd", "/tmp"], &h, &mut vars, &mut scripts) {
        CommandAction::Cd(p) => assert_eq!(p, Some("/tmp".to_string())),
        _ => panic!("expected cd"),
    }
    run(&["declare", "v=1"], &h, &mut vars, &mut scripts);
    assert_eq!(vars.get("v"), Some(&"1".to_string()));
    run(&["complete", "-C", "/c", "git"], &h, &mut vars, &mut scripts);
    assert_eq!(scripts.get("git"), Some(&"/c".to_string()));
    match run(&["grep", "-n", "x"], &h, &mut vars, &mut scripts) {
        CommandAction::Run(c, args) => {
            assert_eq!(c, "grep");
            assert_eq!(args, strs(&["-n", "x"]));
        },
        _ => panic!("expected a program"),
    }
}

#[test]
fn dispatch_refuses_unknown_complete_arguments() {
    let h = FileHistory::new();
    assert!(!dispatch_is_supported(&strs(&["complete", "-x"]), &h));
    assert!(dispatch_is_supported(&strs(&["complete", "-p", "g"]), &h));
}

#[test]
fn helper_completes_command_names() {
    let h = MyHelper::from_commands(&strs(&["echo", "exit", "type"]));
    match h.complete_request("e") {
        CompletionRequest::Commands(c) => {
            let r: Vec<(String, String)> = c.into_iter().map(|c| (c.display, c.replacement)).collect();
            assert_eq!(r, vec![("echo".into(), "echo".into()), ("exit".into(), "exit".into())]);
        },
        _ => panic!("expected commands"),
    }
    match h.complete_request("ty") {
        CompletionRequest::Commands(c) => {
            assert_eq!(c.len(), 1);
            assert_eq!(c[0].display, "type ");
            assert_eq!(c[0].replacement, "type ");
        },
        _ => panic!("expected commands"),
    }
    match h.complete_request("zz") {
        CompletionRequest::Commands(c) => assert!(c.is_empty()),
        _ => panic!("expected commands"),
    }
}

#[test]
fn helper_completes_arguments_by_script_or_files() {
    let mut h = MyHelper::new();
    assert_eq!(h.insert_completer_script("git co".to_string(), "/bin/c".to_string()), None);
    assert_eq!(h.get_completer_script("git co"), Some(&"/bin/c".to_string()));
    match h.complete_request("git co  ") {
        CompletionRequest::Script(s) => assert_eq!(s, "/bin/c"),
        _ => panic!("expected a script"),
    }
    assert!(matches!(h.complete_request("cat fi"), CompletionRequest::Files));
    assert_eq!(
        h.insert_completer_script("git co".to_string(), "/bin/d".to_string()),
        Some("/bin/c".to_string())
    );
}

#[test]
fn setting_a_script_keeps_the_others() {
    let mut h = MyHelper::new();
    assert_eq!(h.insert_completer_script("git co".to_string(), "/bin/c".to_string()), None);
    assert_eq!(h.insert_completer_script("ls -l".to_string(), "/bin/l".to_string()), None);
    assert_eq!(
        h.insert_completer_script("git co".to_string(), "/bin/d".to_string()),
        Some("/bin/c".to_string())
    );
    assert_eq!(h.get_completer_script("git co"), Some(&"/bin/d".to_string()));
    assert_eq!(h.get_completer_script("ls -l"), Some(&"/bin/l".to_string()));
    assert_eq!(h.get_completer_script("cat"), None);
}

#[test]
fn script_output_becomes_candidates() {
    let c = script_candidates("main\nfeature\r\n");
    let r: Vec<(String, String)> = c.into_iter().map(|c| (c.display, c.replacement)).collect();
    assert_eq!(r, vec![("main ".into(), "main ".into()), ("feature ".into(), "feature ".into())]);
}

fn cand(d: &str, r: &str) -> Candidate {
    Candidate { display: d.to_string(), replacement: r.to_string() }
}

#[test]
fn file_candidates_touch_up() {
    let r = finish_file_candidates(vec![cand("a.txt", "dir/a.txt")]);
    assert_eq!((r[0].display.as_str(), r[0].replacement.as_str()), ("dir/a.txt ", "dir/a.txt "));
    let r = finish_file_candidates(vec![cand("sub/", "dir/sub/")]);
    assert_eq!((r[0].display.as_str(), r[0].replacement.as_str()), ("dir/sub/", "dir/sub/"));
    let r = finish_file_candidates(vec![cand("a", "x/a"), cand("b", "x/b")]);
    assert_eq!((r[0].display.as_str(), r[1].display.as_str()), ("x/a", "x/b"));
    assert!(finish_file_candidates(vec![]).is_empty());
}

#[test]
fn try_dispatch_declines_unsupported_lines_without_changes() {
    let h = FileHistory::new();
    let mut vars = StringMap::new();
    let mut scripts = StringMap::new();
    let builtins = default_builtins();
    let r = try_dispatch_command(&strs(&["complete", "-C", "x"]), &builtins, &vec![], &h, &mut vars, &mut scripts);
    assert!(r.is_none());
    assert_eq!(scripts.len(), 0);
    let r = try_dispatch_command(&strs(&["echo", "ok"]), &builtins, &vec![], &h, &mut vars, &mut scripts);
    assert_eq!(written(r.unwrap()).0, "ok\n");
}
