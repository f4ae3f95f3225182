use zero_shell::lexer::Env;
use zero_shell::shell::{
    dispatch, file_error, parse_command, Builtin, LineRun, LineStep, PipelineRun, PipelineStep, Shell,
    StageInput,
};

fn words(v: &[&str]) -> Vec<String> {
    v.iter().map(|s| s.to_string()).collect()
}

fn env(pairs: &[(&str, &str)]) -> Env {
    Env::new(pairs.iter().map(|(k, v)| (k.to_string(), v.to_string())).collect())
}

#[test]
fn new_shell_is_empty() {
    let sh = Shell::new();
    assert_eq!(sh.prev_dir(), None);
    assert_eq!(sh.history_text(), "");
}

#[test]
fn history_is_numbered() {
    let mut sh = Shell::new();
    sh.push_history("echo hi");
    sh.push_history("history");
    assert_eq!(sh.history_text(), "1  echo hi\n2  history\n");
}

#[test]
fn take_line_trims_and_records() {
    let mut sh = Shell::new();
    assert_eq!(sh.take_line("ls -l  \n"), "ls -l");
    assert_eq!(sh.take_line("   "), "");
    assert_eq!(sh.take_line("  pwd"), "  pwd");
    assert_eq!(sh.history_text(), "1  ls -l\n2    pwd\n");
}

#[test]
fn line_is_split_on_semicolons() {
    let sh = Shell::new();
    assert_eq!(sh.handle_line("echo first ; echo second"), words(&["echo first", "echo second"]));
    assert_eq!(sh.handle_line(" ; ;a;; b ;"), words(&["a", "b"]));
    assert_eq!(sh.handle_line("   "), words(&[]));
    assert_eq!(sh.handle_line("echo 'a;b'"), words(&["echo 'a", "b'"]));
}

#[test]
fn commands_are_clean() {
    let sh = Shell::new();
    for seg in sh.handle_line("  a ;\tb c ;; ;d\u{a0}") {
        assert!(!seg.is_empty());
        assert!(!seg.contains(';'));
        assert_eq!(seg.trim(), seg);
    }
}

#[test]
fn command_with_pipeline_and_redirections() {
    let e = env(&[("HOME", "/home/me")]);
    let p = parse_command("echo hi | cat - < in.txt > out.txt", &e).unwrap().unwrap();
    assert_eq!(p.infile, Some("in.txt".to_string()));
    assert_eq!(p.outfile, Some("out.txt".to_string()));
    assert_eq!(p.jobs, vec![Ok(words(&["echo", "hi"])), Ok(words(&["cat", "-"]))]);
    // Everything after the last `<` names the input file, pipes included.
    let q = parse_command("cat < in.txt | cat -", &e).unwrap().unwrap();
    assert_eq!(q.infile, Some("in.txt | cat -".to_string()));
    assert_eq!(q.jobs, vec![Ok(words(&["cat"]))]);
}

#[test]
fn command_words_are_expanded() {
    let e = env(&[("HOME", "/home/me")]);
    let p = parse_command("echo ~ $HOME | cat", &e).unwrap().unwrap();
    assert_eq!(p.infile, None);
    assert_eq!(p.outfile, None);
    assert_eq!(p.jobs, vec![Ok(words(&["echo", "/home/me", "/home/me"])), Ok(words(&["cat"]))]);
}

#[test]
fn last_redirection_marker_wins() {
    let e = env(&[]);
    let p = parse_command("echo a > b > c", &e).unwrap().unwrap();
    assert_eq!(p.outfile, Some("c".to_string()));
    assert_eq!(p.jobs, vec![Ok(words(&["echo", "a", ">", "b"]))]);
}

#[test]
fn missing_file_names_are_syntax_errors() {
    let e = env(&[]);
    assert_eq!(
        parse_command("echo hi >  ", &e).err(),
        Some("syntax error: expected filename after '>'".to_string())
    );
    assert_eq!(
        parse_command("cat <", &e).err(),
        Some("syntax error: expected filename after '<'".to_string())
    );
}

#[test]
fn empty_pipelines_run_nothing() {
    let e = env(&[]);
    assert!(parse_command("> out.txt", &e).unwrap().is_none());
    assert!(parse_command(" | | ", &e).unwrap().is_none());
}

#[test]
fn stages_without_words_are_skipped() {
    let e = env(&[]);
    let p = parse_command("'' | echo x", &e).unwrap().unwrap();
    assert_eq!(p.jobs, vec![Ok(words(&["echo", "x"]))]);
}

#[test]
fn unclosed_quotes_stop_at_their_stage() {
    let e = env(&[]);
    let p = parse_command("echo a | echo 'b | echo c", &e).unwrap().unwrap();
    assert_eq!(p.jobs[0], Ok(words(&["echo", "a"])));
    assert_eq!(p.jobs[1], Err("unclosed quotes".to_string()));
}

#[test]
fn builtins_are_found() {
    let cases = [
        ("echo", Builtin::Echo),
        ("pwd", Builtin::Pwd),
        ("cd", Builtin::Cd),
        ("ls", Builtin::Ls),
        ("cat", Builtin::Cat),
        ("cp", Builtin::Cp),
        ("rm", Builtin::Rm),
        ("mv", Builtin::Mv),
        ("mkdir", Builtin::Mkdir),
        ("help", Builtin::Help),
        ("history", Builtin::History),
        ("exit", Builtin::Exit(0)),
    ];
    for (name, b) in cases {
        assert_eq!(dispatch(&words(&[name, "x"])), Ok(b));
    }
}

#[test]
fn exit_status() {
    assert_eq!(dispatch(&words(&["exit", "2"])), Ok(Builtin::Exit(2)));
    assert_eq!(dispatch(&words(&["exit", "-3"])), Ok(Builtin::Exit(-3)));
    assert_eq!(dispatch(&words(&["exit", "abc"])), Ok(Builtin::Exit(0)));
    assert_eq!(dispatch(&words(&["exit", "99999999999"])), Ok(Builtin::Exit(0)));
    assert_eq!(dispatch(&words(&["exit"])), Ok(Builtin::Exit(0)));
}

#[test]
fn unknown_command() {
    assert_eq!(dispatch(&words(&["frobnicate", "-x"])), Err("Command 'frobnicate' not found".to_string()));
    assert_eq!(dispatch(&words(&["ECHO"])), Err("Command 'ECHO' not found".to_string()));
}

#[test]
fn prompt_shows_directory() {
    let sh = Shell::new();
    assert_eq!(
        sh.prompt(Some("/home/me/src".to_string()), Some("/home/me".to_string())),
        "\x1b[36m~/src\x1b[0m $ "
    );
    assert_eq!(sh.prompt(Some("/tmp".to_string()), Some("/home/me".to_string())), "\x1b[36m/tmp\x1b[0m $ ");
    assert_eq!(sh.prompt(Some("/tmp".to_string()), Some("".to_string())), "\x1b[36m/tmp\x1b[0m $ ");
    assert_eq!(sh.prompt(None, None), "\x1b[36m?\x1b[0m $ ");
    assert_eq!(sh.prompt(Some("/home/me".to_string()), Some("/home/me".to_string())), "\x1b[36m~\x1b[0m $ ");
}

#[test]
fn chdir_records_previous_directory() {
    let mut sh = Shell::new();
    assert_eq!(sh.chdir(Ok("/a".to_string()), "/b", Ok(())), Ok(()));
    assert_eq!(sh.prev_dir(), Some("/a".to_string()));
    assert_eq!(
        sh.chdir(Ok("/b".to_string()), "/nope", Err("No such file or directory (os error 2)".to_string())),
        Err("cd: /nope: No such file or directory (os error 2)".to_string())
    );
    assert_eq!(sh.prev_dir(), Some("/a".to_string()));
    assert_eq!(sh.chdir(Err("gone".to_string()), "/c", Ok(())), Err("gone".to_string()));
    assert_eq!(sh.prev_dir(), Some("/a".to_string()));
}

#[test]
fn pipeline_passes_each_output_to_the_next_stage() {
    let p = parse_command("echo hi | cat | cat > out.txt", &env(&[])).unwrap().unwrap();
    let mut run = PipelineRun::new(p);
    match run.step(None) {
        PipelineStep::Run(a, StageInput::Initial) => assert_eq!(a, words(&["echo", "hi"])),
        _ => panic!("the first stage reads the pipeline's input"),
    }
    match run.step(Some(Ok(b"hi\n".to_vec()))) {
        PipelineStep::Run(a, StageInput::Bytes(b)) => {
            assert_eq!(a, words(&["cat"]));
            assert_eq!(b, b"hi\n".to_vec());
        }
        _ => panic!("the second stage reads the first one's output"),
    }
    match run.step(Some(Ok(b"one".to_vec()))) {
        PipelineStep::Run(_, StageInput::Bytes(b)) => assert_eq!(b, b"one".to_vec()),
        _ => panic!("the third stage reads the second one's output"),
    }
    match run.step(Some(Ok(b"two".to_vec()))) {
        PipelineStep::Finish(b) => assert_eq!(b, b"two".to_vec()),
        _ => panic!("the last output is written"),
    }
}

#[test]
fn failing_stage_stops_the_pipeline() {
    let p = parse_command("nope | cat", &env(&[])).unwrap().unwrap();
    let mut run = PipelineRun::new(p);
    assert!(matches!(run.step(None), PipelineStep::Run(_, StageInput::Initial)));
    match run.step(Some(Err("Command 'nope' not found".to_string()))) {
        PipelineStep::Stop(e) => assert_eq!(e, "Command 'nope' not found"),
        _ => panic!("a failed stage stops the pipeline"),
    }
}

#[test]
fn unsplittable_stage_stops_when_reached() {
    let p = parse_command("echo a | cat 'x", &env(&[])).unwrap().unwrap();
    let mut run = PipelineRun::new(p);
    assert!(matches!(run.step(None), PipelineStep::Run(_, StageInput::Initial)));
    match run.step(Some(Ok(b"a\n".to_vec()))) {
        PipelineStep::Stop(e) => assert_eq!(e, "unclosed quotes"),
        _ => panic!("the stage with an open quote stops the pipeline"),
    }
}

#[test]
fn pipeline_without_jobs_writes_nothing() {
    let p = parse_command("'' | \"\"", &env(&[])).unwrap().unwrap();
    let mut run = PipelineRun::new(p);
    match run.step(None) {
        PipelineStep::Finish(b) => assert!(b.is_empty()),
        _ => panic!("no stage runs"),
    }
}

#[test]
fn redirection_file_errors() {
    assert_eq!(file_error("in.txt", "No such file or directory (os error 2)"), "in.txt: No such file or directory (os error 2)");
}

#[test]
fn line_runs_commands_in_order_until_one_fails() {
    let sh = Shell::new();
    let mut run = LineRun::new(sh.handle_line("echo a ; bad ; echo c"));
    assert!(matches!(run.step(None), LineStep::Run(c) if c == "echo a"));
    assert!(matches!(run.step(Some(Ok(()))), LineStep::Run(c) if c == "bad"));
    assert!(matches!(run.step(Some(Err("boom".to_string()))), LineStep::Fail(e) if e == "boom"));

    let mut run = LineRun::new(sh.handle_line("echo a ; echo b"));
    assert!(matches!(run.step(None), LineStep::Run(c) if c == "echo a"));
    assert!(matches!(run.step(Some(Ok(()))), LineStep::Run(c) if c == "echo b"));
    assert!(matches!(run.step(Some(Ok(()))), LineStep::Done));

    let mut run = LineRun::new(sh.handle_line("  ;  "));
    assert!(matches!(run.step(None), LineStep::Done));
}
