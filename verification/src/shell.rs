//! The shell's state (previous directory, history) and the decisions it makes
//! on a command line: chaining with `;`, redirections, pipeline stages,
//! choosing the builtin, the prompt and the history listing.

use vstd::prelude::*;
use crate::lexer::{expand_vars_and_tilde, expand_word, split_words, words_of, Env};
use crate::text::{
    chars_of, decimal, has_char, is_digit, is_trimmed, last_index_in, last_index_of,
    law_split_pieces_are_clean, lemma_decimal_digits, lemma_no_char_no_index, parse_i32,
    parse_i32_spec, parse_int, push_char, push_decimal, push_range, push_str, split_on,
    split_trimmed, string_of, text_eq, trim, trim_bounds, trim_end, trim_end_bound, trim_end_str,
    trimmed_nonempty, views,
};

verus! {

broadcast use vstd::string::group_string_axioms;

/// The interactive shell's own state.
pub struct Shell {
    prev_dir: Option<String>,
    history: Vec<String>,
}

/// The lines of the `history` listing: each entry numbered from 1, the number
/// and the line separated by two spaces.
pub open spec fn history_listing(h: Seq<Seq<char>>) -> Seq<char>
    decreases h.len(),
{
    if h.len() == 0 {
        Seq::<char>::empty()
    } else {
        history_listing(h.drop_last()) + decimal(h.len()) + seq![' ', ' '] + h.last() + seq!['\n']
    }
}

/// The directory shown in the prompt: the current directory (`?` when it is
/// unknown), with a leading home directory written as `~`.
pub open spec fn prompt_dir(cwd: Option<Seq<char>>, home: Option<Seq<char>>) -> Seq<char> {
    let disp = match cwd {
        Some(c) => c,
        None => seq!['?'],
    };
    let h = match home {
        Some(h) => h,
        None => Seq::<char>::empty(),
    };
    if h.len() > 0 && h.len() <= disp.len() && disp.take(h.len() as int) == h {
        seq!['~'] + disp.skip(h.len() as int)
    } else {
        disp
    }
}

impl Default for Shell {
    /// A shell with no history and no previous directory.
    fn default() -> (sh: Shell)
        ensures
            sh.prev_view() is None,
            sh.history_view() == Seq::<Seq<char>>::empty(),
    {
        Shell::new()
    }
}

impl Shell {
    /// The directory that was current before the last successful `cd`.
    pub closed spec fn prev_view(&self) -> Option<Seq<char>> {
        match self.prev_dir {
            Some(d) => Some(d@),
            None => None,
        }
    }

    /// The lines entered so far, oldest first.
    pub closed spec fn history_view(&self) -> Seq<Seq<char>> {
        views(self.history@)
    }

    /// A shell with no history and no previous directory.
    pub fn new() -> (sh: Shell)
        ensures
            sh.prev_view() is None,
            sh.history_view() == Seq::<Seq<char>>::empty(),
    {
        let sh = Shell { prev_dir: None, history: Vec::new() };
        assert(views(sh.history@) =~= Seq::<Seq<char>>::empty());
        sh
    }

    /// Records a line in the history.
    pub fn push_history(&mut self, line: &str)
        ensures
            final(self).history_view() == old(self).history_view().push(line@),
            final(self).prev_view() == old(self).prev_view(),
    {
        let cs = chars_of(line);
        let s = string_of(&cs, 0, cs.len());
        assert(cs@.subrange(0, cs@.len() as int) =~= cs@);
        let ghost before = views(self.history@);
        self.history.push(s);
        assert(views(self.history@) =~= before.push(line@));
    }

    /// Takes a line as read from the terminal: drops its trailing whitespace,
    /// records it in the history when something is left, and returns what is left.
    pub fn take_line(&mut self, line: &str) -> (r: String)
        ensures
            r@ == trim_end(line@),
            final(self).history_view() == if r@.len() > 0 {
                old(self).history_view().push(r@)
            } else {
                old(self).history_view()
            },
            final(self).prev_view() == old(self).prev_view(),
    {
        let r = trim_end_str(line);
        if !r.as_str().is_empty() {
            self.push_history(r.as_str());
        }
        r
    }

    /// The directory that was current before the last successful `cd`.
    pub fn prev_dir(&self) -> (r: Option<String>)
        ensures
            match self.prev_view() {
                Some(d) => r matches Some(s) && s@ == d,
                None => r is None,
            },
    {
        match &self.prev_dir {
            Some(d) => Some(d.clone()),
            None => None,
        }
    }

    /// The prompt for the current directory `cwd` (`None` when it cannot be
    /// read) and the home directory `home` (`None` when `HOME` is unset).
    pub fn prompt(&self, cwd: Option<String>, home: Option<String>) -> (r: String)
        ensures
            r@ == "\x1b[36m"@ + prompt_dir(
                match cwd {
                    Some(c) => Some(c@),
                    None => None,
                },
                match home {
                    Some(h) => Some(h@),
                    None => None,
                },
            ) + "\x1b[0m $ "@,
    {
        let disp = match &cwd {
            Some(c) => chars_of(c.as_str()),
            None => {
                let mut q: Vec<char> = Vec::new();
                q.push('?');
                q
            },
        };
        let h = match &home {
            Some(h) => chars_of(h.as_str()),
            None => Vec::new(),
        };
        let ghost gcwd = match cwd {
            Some(c) => Some(c@),
            None => None,
        };
        let ghost ghome = match home {
            Some(x) => Some(x@),
            None => None,
        };
        assert(disp@ =~= match gcwd {
            Some(c) => c,
            None => seq!['?'],
        });
        assert(h@ =~= match ghome {
            Some(x) => x,
            None => Seq::<char>::empty(),
        });
        let mut prefixed = h.len() > 0 && h.len() <= disp.len();
        let mut k: usize = 0;
        while prefixed && k < h.len()
            invariant
                k <= h.len(),
                prefixed ==> 0 < h.len() <= disp.len(),
                prefixed ==> forall|j: int| 0 <= j < k ==> disp@[j] == h@[j],
                !prefixed ==> !(h@.len() > 0 && h@.len() <= disp@.len() && disp@.take(
                    h@.len() as int,
                ) == h@),
            decreases h.len() - k,
        {
            if disp[k] != h[k] {
                prefixed = false;
                proof {
                    if disp@.take(h@.len() as int) == h@ {
                        assert(disp@.take(h@.len() as int)[k as int] == disp@[k as int]);
                    }
                }
            }
            k += 1;
        }
        if prefixed {
            assert(disp@.take(h@.len() as int) =~= h@);
        }
        let mut r = String::new();
        proof {
            reveal_strlit("\x1b[36m");
            reveal_strlit("\x1b[0m $ ");
        }
        push_str(&mut r, "\x1b[36m");
        if prefixed {
            push_char(&mut r, '~');
            push_range(&mut r, &disp, h.len(), disp.len());
            assert(disp@.subrange(h@.len() as int, disp@.len() as int) =~= disp@.skip(h@.len() as int));
            assert(seq!['~'] + disp@.skip(h@.len() as int) == prompt_dir(gcwd, ghome));
            assert(r@ =~= "\x1b[36m"@ + prompt_dir(gcwd, ghome));
        } else {
            push_range(&mut r, &disp, 0, disp.len());
            assert(disp@.subrange(0, disp@.len() as int) =~= disp@);
            assert(disp@ == prompt_dir(gcwd, ghome));
            assert(r@ =~= "\x1b[36m"@ + prompt_dir(gcwd, ghome));
        }
        push_str(&mut r, "\x1b[0m $ ");
        r
    }

    /// The commands of a line, in the order they are to run: the pieces between
    /// `;` separators, trimmed, with the empty ones left out. The shell is only
    /// read, so its history is left as it is; `LineRun` runs the commands (see
    /// `law_line_runs_commands_in_order`).
    pub fn handle_line(&self, raw: &str) -> (segments: Vec<String>)
        ensures
            views(segments@) == trimmed_nonempty(split_on(trim(raw@), ';')),
    {
        let cs = chars_of(raw);
        let (a, b) = trim_bounds(&cs, 0, cs.len());
        assert(cs@.subrange(0, cs@.len() as int) =~= cs@);
        split_trimmed(&cs, a, b, ';')
    }

    /// The listing printed by `history`.
    pub fn history_text(&self) -> (r: String)
        ensures
            r@ == history_listing(self.history_view()),
    {
        let mut r = String::new();
        let mut i: usize = 0;
        assert(views(self.history@).take(0) =~= Seq::<Seq<char>>::empty());
        while i < self.history.len()
            invariant
                i <= self.history.len(),
                r@ == history_listing(views(self.history@).take(i as int)),
            decreases self.history.len() - i,
        {
            let ghost h = views(self.history@).take(i + 1);
            assert(h.drop_last() =~= views(self.history@).take(i as int));
            assert(h.last() == self.history[i as int]@);
            push_decimal(&mut r, (i + 1) as u64);
            push_char(&mut r, ' ');
            push_char(&mut r, ' ');
            push_str(&mut r, self.history[i].as_str());
            push_char(&mut r, '\n');
            assert(r@ =~= history_listing(h));
            i += 1;
        }
        assert(views(self.history@).take(self.history.len() as int) =~= views(self.history@));
        r
    }

    /// Records a change of directory. `cur` is what reading the current
    /// directory gave before the change, `target` the directory asked for and
    /// `outcome` what changing to it gave (only consulted when `cur` is `Ok`).
    /// On success the directory left becomes the previous directory; a failed
    /// change is reported as `cd: <target>: <error>`.
    pub fn chdir(&mut self, cur: Result<String, String>, target: &str, outcome: Result<(), String>) -> (r: Result<(), String>)
        ensures
            final(self).history_view() == old(self).history_view(),
            match cur {
                Err(e) => r matches Err(m) && m@ == e@ && final(self).prev_view() == old(self).prev_view(),
                Ok(c) => match outcome {
                    Err(e) => r matches Err(m) && m@ == "cd: "@ + target@ + ": "@ + e@
                        && final(self).prev_view() == old(self).prev_view(),
                    Ok(_) => r is Ok && final(self).prev_view() == Some(c@),
                },
            },
    {
        match cur {
            Err(e) => Err(e),
            Ok(c) => match outcome {
                Err(e) => {
                    let mut m = String::new();
                    proof {
                        reveal_strlit("cd: ");
                        reveal_strlit(": ");
                    }
                    push_str(&mut m, "cd: ");
                    push_str(&mut m, target);
                    push_str(&mut m, ": ");
                    push_str(&mut m, e.as_str());
                    Err(m)
                },
                Ok(_) => {
                    self.prev_dir = Some(c);
                    Ok(())
                },
            },
        }
    }
}

/// What a pipeline stage runs: the expanded words of a command, or the error
/// that stops the pipeline when it is reached.
pub open spec fn job_view(j: Result<Vec<String>, String>) -> Result<Seq<Seq<char>>, Seq<char>> {
    match j {
        Ok(v) => Ok(views(v@)),
        Err(e) => Err(e@),
    }
}

/// The job of one pipeline stage: its words, each expanded, or the splitting
/// error; `None` for a stage with no words, which runs nothing.
pub open spec fn job_of(stage: Seq<char>, env: Seq<(Seq<char>, Seq<char>)>) -> Option<
    Result<Seq<Seq<char>>, Seq<char>>,
> {
    match words_of(stage) {
        Err(_) => Some(Err("unclosed quotes"@)),
        Ok(ws) => if ws.len() == 0 {
            None
        } else {
            Some(Ok(ws.map_values(|w: Seq<char>| expand_word(w, env))))
        },
    }
}

/// The jobs of the pipeline stages, in order.
pub open spec fn jobs_of(stages: Seq<Seq<char>>, env: Seq<(Seq<char>, Seq<char>)>) -> Seq<
    Result<Seq<Seq<char>>, Seq<char>>,
>
    decreases stages.len(),
{
    if stages.len() == 0 {
        Seq::empty()
    } else {
        let r = jobs_of(stages.drop_last(), env);
        match job_of(stages.last(), env) {
            Some(j) => r.push(j),
            None => r,
        }
    }
}

/// Splitting off a redirection marked by `c`: the text after the last `c`,
/// trimmed, names the file, and the text before it, without its trailing
/// whitespace, is what is left of the command. `None` when the file name is missing.
pub open spec fn cut_redirect(s: Seq<char>, c: char) -> Option<(Seq<char>, Option<Seq<char>>)> {
    match last_index_of(s, c) {
        None => Some((s, None)),
        Some(p) => {
            let t = trim(s.skip(p + 1));
            if t.len() == 0 {
                None
            } else {
                Some((trim_end(s.take(p)), Some(t)))
            }
        },
    }
}

/// The parts of one command: `(input file, output file, pipeline stages)`, or
/// the syntax error. The output redirection is taken off first, then the input
/// one; the stages are the pieces between `|`, trimmed, the empty ones left out.
pub open spec fn command_parts(raw: Seq<char>) -> Result<
    (Option<Seq<char>>, Option<Seq<char>>, Seq<Seq<char>>),
    Seq<char>,
> {
    match cut_redirect(raw, '>') {
        None => Err("syntax error: expected filename after '>'"@),
        Some((rest, outfile)) => match cut_redirect(rest, '<') {
            None => Err("syntax error: expected filename after '<'"@),
            Some((cmd, infile)) => Ok((infile, outfile, trimmed_nonempty(split_on(cmd, '|')))),
        },
    }
}

/// A command ready to run: its redirections and the jobs of its stages, in order.
pub struct Pipeline {
    pub infile: Option<String>,
    pub outfile: Option<String>,
    pub jobs: Vec<Result<Vec<String>, String>>,
}

/// The abstract value of an optional string.
pub open spec fn opt_view(o: Option<String>) -> Option<Seq<char>> {
    match o {
        Some(s) => Some(s@),
        None => None,
    }
}

impl Pipeline {
    pub open spec fn jobs_view(&self) -> Seq<Result<Seq<Seq<char>>, Seq<char>>> {
        self.jobs@.map_values(|j: Result<Vec<String>, String>| job_view(j))
    }
}

/// Takes off the redirection marked by `c` from `cs[0..end]`: returns the new
/// end and the file name, or `None` when the file name is missing.
fn cut_redirect_exec(cs: &Vec<char>, end: usize, c: char) -> (r: Option<(usize, Option<String>)>)
    requires
        end <= cs.len(),
    ensures
        match cut_redirect(cs@.take(end as int), c) {
            None => r is None,
            Some((rest, f)) => r matches Some((e, g)) && e <= end && cs@.take(e as int) == rest
                && opt_view(g) == f,
        },
{
    match last_index_in(cs, end, c) {
        None => Some((end, None)),
        Some(p) => {
            let (a, b) = trim_bounds(cs, p + 1, end);
            assert(cs@.take(end as int).skip(p + 1) =~= cs@.subrange(p + 1, end as int));
            assert(cs@.take(end as int).take(p as int) =~= cs@.subrange(0, p as int));
            if a == b {
                None
            } else {
                let name = string_of(cs, a, b);
                let e = trim_end_bound(cs, 0, p);
                assert(cs@.take(e as int) =~= cs@.subrange(0, e as int));
                assert(cut_redirect(cs@.take(end as int), c) == Some((cs@.take(e as int), Some(name@))));
                Some((e, Some(name)))
            }
        },
    }
}

/// Parses one command of a line: its output redirection (`> file`), its input
/// redirection (`< file`) and its pipeline stages (`a | b`), and splits and
/// expands the words of each stage. `Ok(None)` when there is no stage at all.
pub fn parse_command(raw: &str, env: &Env) -> (r: Result<Option<Pipeline>, String>)
    ensures
        match command_parts(raw@) {
            Err(msg) => r matches Err(m) && m@ == msg,
            Ok((infile, outfile, stages)) => if stages.len() == 0 {
                r matches Ok(None)
            } else {
                r matches Ok(Some(p)) && opt_view(p.infile) == infile && opt_view(p.outfile)
                    == outfile && p.jobs_view() == jobs_of(stages, env@)
            },
        },
{
    let cs = chars_of(raw);
    assert(cs@.take(cs.len() as int) =~= cs@);
    proof {
        reveal_strlit("syntax error: expected filename after '>'");
        reveal_strlit("syntax error: expected filename after '<'");
        reveal_strlit("unclosed quotes");
    }
    let (end1, outfile) = match cut_redirect_exec(&cs, cs.len(), '>') {
        None => {
            let mut m = String::new();
            push_str(&mut m, "syntax error: expected filename after '>'");
            return Err(m);
        },
        Some(x) => x,
    };
    let (end2, infile) = match cut_redirect_exec(&cs, end1, '<') {
        None => {
            let mut m = String::new();
            push_str(&mut m, "syntax error: expected filename after '<'");
            assert(cs@.take(end1 as int).take(end1 as int) =~= cs@.take(end1 as int));
            return Err(m);
        },
        Some(x) => x,
    };
    assert(cs@.take(end1 as int).take(end1 as int) =~= cs@.take(end1 as int));
    assert(cs@.take(end2 as int) =~= cs@.subrange(0, end2 as int));
    let stages = split_trimmed(&cs, 0, end2, '|');
    if stages.len() == 0 {
        return Ok(None);
    }
    let mut jobs: Vec<Result<Vec<String>, String>> = Vec::new();
    let mut i: usize = 0;
    assert(views(stages@).take(0) =~= Seq::<Seq<char>>::empty());
    while i < stages.len()
        invariant
            i <= stages.len(),
            jobs@.map_values(|j: Result<Vec<String>, String>| job_view(j)) == jobs_of(
                views(stages@).take(i as int),
                env@,
            ),
        decreases stages.len() - i,
    {
        let ghost before = jobs@.map_values(|j: Result<Vec<String>, String>| job_view(j));
        let ghost st = views(stages@).take(i + 1);
        assert(st.drop_last() =~= views(stages@).take(i as int));
        assert(st.last() == stages[i as int]@);
        match split_words(stages[i].as_str()) {
            Err(e) => {
                let mut m = String::new();
                push_str(&mut m, e);
                jobs.push(Err(m));
                assert(jobs@.map_values(|j: Result<Vec<String>, String>| job_view(j)) =~= before.push(
                    Err("unclosed quotes"@),
                ));
            },
            Ok(ws) => {
                if ws.len() > 0 {
                    let ghost wv = views(ws@);
                    let ex = expand_vars_and_tilde(ws, env);
                    assert(views(ex@) =~= wv.map_values(|w: Seq<char>| expand_word(w, env@)));
                    jobs.push(Ok(ex));
                    assert(jobs@.map_values(|j: Result<Vec<String>, String>| job_view(j)) =~= before.push(
                        Ok(wv.map_values(|w: Seq<char>| expand_word(w, env@))),
                    ));
                }
            },
        }
        i += 1;
    }
    assert(views(stages@).take(stages.len() as int) =~= views(stages@));
    Ok(Some(Pipeline { infile, outfile, jobs }))
}

/// The message for a redirection file that could not be opened or created:
/// `<path>: <error>`.
pub fn file_error(path: &str, err: &str) -> (m: String)
    ensures
        m@ == path@ + ": "@ + err@,
{
    let mut m = String::new();
    proof {
        reveal_strlit(": ");
    }
    push_str(&mut m, path);
    push_str(&mut m, ": ");
    push_str(&mut m, err);
    m
}

/// What a pipeline stage reads: the input the pipeline started with (the
/// input file, or nothing), or the output of the stage before it.
pub enum StageInput {
    Initial,
    Bytes(Vec<u8>),
}

/// The abstract value of a stage's input: `None` for the pipeline's own input.
pub open spec fn input_view(i: StageInput) -> Option<Seq<u8>> {
    match i {
        StageInput::Initial => None,
        StageInput::Bytes(b) => Some(b@),
    }
}

/// What the shell does next while running a pipeline.
pub enum PipelineStep {
    /// Run the builtin that the words name, reading the given input, and
    /// report back what it wrote or the error it gave.
    Run(Vec<String>, StageInput),
    /// Every stage ran: these bytes, the output of the last stage, go to the
    /// output file or to standard output.
    Finish(Vec<u8>),
    /// The pipeline stops with this error; nothing is written.
    Stop(String),
}

/// The step that comes when the stages before `pos` have run and `carried`
/// is the output of the last of them (`None` when none has run).
pub open spec fn next_step(
    jobs: Seq<Result<Seq<Seq<char>>, Seq<char>>>,
    pos: int,
    carried: Option<Seq<u8>>,
    r: PipelineStep,
) -> bool {
    if pos >= jobs.len() {
        r matches PipelineStep::Finish(b) && b@ == match carried {
            Some(c) => c,
            None => Seq::<u8>::empty(),
        }
    } else {
        match jobs[pos] {
            Err(e) => r matches PipelineStep::Stop(m) && m@ == e,
            Ok(argv) => r matches PipelineStep::Run(a, i) && views(a@) == argv && input_view(i)
                == carried,
        }
    }
}

/// A pipeline being run, stage by stage: the output of each stage is the
/// input of the next, and only the output of the last one is written.
pub struct PipelineRun {
    jobs: Vec<Result<Vec<String>, String>>,
    pos: usize,
    carried: Option<Vec<u8>>,
    running: bool,
    finished: bool,
}

/// A pipeline step as a plain value.
pub enum PipeStepView {
    Run(Seq<Seq<char>>, Option<Seq<u8>>),
    Finish(Seq<u8>),
    Stop(Seq<char>),
}

/// The plain value of a step.
pub open spec fn pipe_step_view(r: PipelineStep) -> PipeStepView {
    match r {
        PipelineStep::Run(a, i) => PipeStepView::Run(views(a@), input_view(i)),
        PipelineStep::Finish(b) => PipeStepView::Finish(b@),
        PipelineStep::Stop(e) => PipeStepView::Stop(e@),
    }
}

/// The outcome of a stage as a plain value.
pub open spec fn pipe_outcome_view(o: Option<Result<Vec<u8>, String>>) -> Option<Result<Seq<u8>, Seq<char>>> {
    match o {
        None => None,
        Some(Ok(b)) => Some(Ok(b@)),
        Some(Err(e)) => Some(Err(e@)),
    }
}

/// The state of a pipeline run: `(stages run, output of the last stage that
/// ran, a stage handed out, ended)`.
pub type PipeState = (int, Option<Seq<u8>>, bool, bool);

/// One step of running the pipeline stages `jobs`, from state `st` and the
/// outcome of the stage handed out last (`None` at the start): the new state
/// and the step.
pub open spec fn pipe_next(
    jobs: Seq<Result<Seq<Seq<char>>, Seq<char>>>,
    st: PipeState,
    outcome: Option<Result<Seq<u8>, Seq<char>>>,
) -> (PipeState, PipeStepView) {
    match outcome {
        Some(Err(e)) => ((st.0, st.1, false, true), PipeStepView::Stop(e)),
        _ => {
            let pos = if outcome is Some {
                st.0 + 1
            } else {
                st.0
            };
            let carried = match outcome {
                Some(Ok(b)) => Some(b),
                _ => st.1,
            };
            if pos >= jobs.len() {
                (
                    (pos, None, false, true),
                    PipeStepView::Finish(
                        match carried {
                            Some(c) => c,
                            None => Seq::<u8>::empty(),
                        },
                    ),
                )
            } else {
                match jobs[pos] {
                    Err(e) => ((pos, carried, false, true), PipeStepView::Stop(e)),
                    Ok(argv) => ((pos, None, true, false), PipeStepView::Run(argv, carried)),
                }
            }
        },
    }
}

/// The state after feeding `outcomes` to a run of `jobs` that has not
/// started, and the steps it gave, in order.
pub open spec fn pipe_trace(
    jobs: Seq<Result<Seq<Seq<char>>, Seq<char>>>,
    outcomes: Seq<Option<Result<Seq<u8>, Seq<char>>>>,
) -> (PipeState, Seq<PipeStepView>)
    decreases outcomes.len(),
{
    if outcomes.len() == 0 {
        ((0, None, false, false), Seq::empty())
    } else {
        let (st, steps) = pipe_trace(jobs, outcomes.drop_last());
        let (st2, s) = pipe_next(jobs, st, outcomes.last());
        (st2, steps.push(s))
    }
}

/// What is fed to a run when its stages write `outs` in turn: nothing at the
/// start, then each output.
pub open spec fn pipe_feed(outs: Seq<Seq<u8>>) -> Seq<Option<Result<Seq<u8>, Seq<char>>>> {
    seq![None::<Result<Seq<u8>, Seq<char>>>] + outs.map_values(|o: Seq<u8>| Some(Ok::<Seq<u8>, Seq<char>>(o)))
}

/// The step that hands out stage `i` when the stages before it wrote `outs`.
pub open spec fn stage_run(jobs: Seq<Result<Seq<Seq<char>>, Seq<char>>>, outs: Seq<Seq<u8>>, i: int) -> PipeStepView {
    PipeStepView::Run(
        jobs[i]->Ok_0,
        if i == 0 {
            None
        } else {
            Some(outs[i - 1])
        },
    )
}

proof fn lemma_pipe_prefix(jobs: Seq<Result<Seq<Seq<char>>, Seq<char>>>, outs: Seq<Seq<u8>>, j: int)
    requires
        0 <= j < jobs.len(),
        j <= outs.len(),
        forall|i: int| 0 <= i < jobs.len() ==> #[trigger] jobs[i] is Ok,
    ensures
        pipe_trace(jobs, pipe_feed(outs).take(j + 1)).0 == (j, None::<Seq<u8>>, true, false),
        pipe_trace(jobs, pipe_feed(outs).take(j + 1)).1 =~= Seq::new(
            (j + 1) as nat,
            |i: int| stage_run(jobs, outs, i),
        ),
    decreases j,
{
    let f = pipe_feed(outs);
    let want = Seq::new((j + 1) as nat, |i: int| stage_run(jobs, outs, i));
    assert(f.len() == outs.len() + 1);
    assert(jobs[j] is Ok);
    if j == 0 {
        let e = f.take(1).drop_last();
        assert(e =~= Seq::<Option<Result<Seq<u8>, Seq<char>>>>::empty());
        assert(pipe_trace(jobs, e) == ((0int, None::<Seq<u8>>, false, false), Seq::<PipeStepView>::empty()));
        assert(f[0] == None::<Result<Seq<u8>, Seq<char>>>);
        assert(f.take(1).last() == f[0]);
        assert(Seq::<PipeStepView>::empty().push(want[0]) =~= want);
    } else {
        lemma_pipe_prefix(jobs, outs, j - 1);
        let prev = Seq::new(j as nat, |i: int| stage_run(jobs, outs, i));
        assert(f.take(j + 1).drop_last() =~= f.take(j));
        assert(pipe_trace(jobs, f.take(j)).1 == prev);
        assert(f.take(j + 1).last() == f[j]);
        assert(f[j] == Some(Ok::<Seq<u8>, Seq<char>>(outs[j - 1])));
        assert(prev.push(want[j]) =~= want);
    }
}

/// Running a pipeline whose stages all have words: when its stages write
/// `outs` in turn, the first stage reads the pipeline's own input, each later
/// stage reads exactly what the stage before it wrote, and the run finishes by
/// handing out exactly what the last stage wrote, however many stages there
/// are (nothing when there is no stage).
pub proof fn law_pipeline_passes_outputs_along(
    jobs: Seq<Result<Seq<Seq<char>>, Seq<char>>>,
    outs: Seq<Seq<u8>>,
)
    requires
        forall|i: int| 0 <= i < jobs.len() ==> #[trigger] jobs[i] is Ok,
        outs.len() == jobs.len(),
    ensures
        ({
            let (st, steps) = pipe_trace(jobs, pipe_feed(outs));
            &&& steps.len() == jobs.len() + 1
            &&& forall|i: int|
                0 <= i < jobs.len() ==> #[trigger] steps[i] == PipeStepView::Run(
                    jobs[i]->Ok_0,
                    if i == 0 {
                        None
                    } else {
                        Some(outs[i - 1])
                    },
                )
            &&& steps[jobs.len() as int] == PipeStepView::Finish(
                if jobs.len() == 0 {
                    Seq::<u8>::empty()
                } else {
                    outs.last()
                },
            )
            &&& st.3
        }),
{
    let f = pipe_feed(outs);
    let n = jobs.len() as int;
    assert(f.len() == n + 1);
    assert(f.take(n + 1) =~= f);
    if n == 0 {
        let e = f.drop_last();
        assert(e =~= Seq::<Option<Result<Seq<u8>, Seq<char>>>>::empty());
        assert(pipe_trace(jobs, e) == ((0int, None::<Seq<u8>>, false, false), Seq::<PipeStepView>::empty()));
        assert(f[0] == None::<Result<Seq<u8>, Seq<char>>>);
        assert(f.last() == f[0]);
    } else {
        lemma_pipe_prefix(jobs, outs, n - 1);
        assert(f.drop_last() =~= f.take(n));
        assert(f.last() == f[n]);
        assert(f[n] == Some(Ok::<Seq<u8>, Seq<char>>(outs[n - 1])));
        let prev = pipe_trace(jobs, f.take(n)).1;
        let steps = pipe_trace(jobs, f).1;
        assert(steps == prev.push(pipe_next(jobs, (n - 1, None, true, false), f[n]).1));
        assert forall|i: int| 0 <= i < n implies #[trigger] steps[i] == PipeStepView::Run(
            jobs[i]->Ok_0,
            if i == 0 {
                None
            } else {
                Some(outs[i - 1])
            },
        ) by {
            assert(steps[i] == prev[i]);
        }
    }
}

/// A stage that fails ends the pipeline with its error, whatever stage it
/// was; a stage whose words could not be split ends it with that error as
/// soon as it is reached, and nothing after it is handed out.
pub proof fn law_pipeline_stops_at_failure(
    jobs: Seq<Result<Seq<Seq<char>>, Seq<char>>>,
    st: PipeState,
    e: Seq<char>,
    b: Seq<u8>,
)
    ensures
        pipe_next(jobs, st, Some(Err(e))).1 == PipeStepView::Stop(e),
        pipe_next(jobs, st, Some(Err(e))).0.3,
        0 <= st.0 + 1 < jobs.len() && jobs[st.0 + 1] is Err ==> {
            &&& pipe_next(jobs, st, Some(Ok(b))).1 == PipeStepView::Stop(jobs[st.0 + 1]->Err_0)
            &&& pipe_next(jobs, st, Some(Ok(b))).0.3
        },
{
}

impl PipelineRun {
    /// The jobs of the stages, in order.
    pub closed spec fn jobs_view(&self) -> Seq<Result<Seq<Seq<char>>, Seq<char>>> {
        self.jobs@.map_values(|j: Result<Vec<String>, String>| job_view(j))
    }

    /// How many stages have run.
    pub closed spec fn pos(&self) -> int {
        self.pos as int
    }

    /// The run's state: `(stages run, output of the last stage that ran, a
    /// stage handed out, ended)`.
    pub closed spec fn state(&self) -> PipeState {
        (self.pos as int, self.carried(), self.running, self.finished)
    }

    /// The output of the last stage that ran, `None` before any has run.
    pub closed spec fn carried(&self) -> Option<Seq<u8>> {
        match self.carried {
            Some(b) => Some(b@),
            None => None,
        }
    }

    /// Whether a stage was handed out and its outcome is awaited.
    pub closed spec fn running(&self) -> bool {
        self.running
    }

    /// Whether the run has finished or stopped.
    pub closed spec fn finished(&self) -> bool {
        self.finished
    }

    /// The run's invariant: the stages that ran lie within the pipeline, and
    /// a stage handed out is one whose words are known.
    pub closed spec fn wf(&self) -> bool {
        &&& self.pos <= self.jobs.len()
        &&& self.running ==> self.pos < self.jobs.len() && self.jobs@[self.pos as int] is Ok
        &&& self.running ==> self.carried is None
    }

    /// A run of the stages of `p` that has not started.
    pub fn new(p: Pipeline) -> (r: PipelineRun)
        ensures
            r.wf(),
            r.jobs_view() == p.jobs_view(),
            r.state() == (0int, None::<Seq<u8>>, false, false),
            r.pos() == 0,
            r.carried() is None,
            !r.running(),
            !r.finished(),
    {
        PipelineRun { jobs: p.jobs, pos: 0, carried: None, running: false, finished: false }
    }

    /// Takes the outcome of the stage handed out last (`None` at the start)
    /// and says what comes next. A stage that failed stops the pipeline with
    /// its error. Otherwise its output becomes the input of the next stage; a
    /// stage whose words could not be split stops the pipeline when it is
    /// reached; after the last stage its output is handed out to be written
    /// (nothing when no stage ran).
    pub fn step(&mut self, outcome: Option<Result<Vec<u8>, String>>) -> (r: PipelineStep)
        requires
            old(self).wf(),
            !old(self).finished(),
            old(self).running() <==> outcome is Some,
        ensures
            final(self).wf(),
            final(self).jobs_view() == old(self).jobs_view(),
            (final(self).state(), pipe_step_view(r)) == pipe_next(
                old(self).jobs_view(),
                old(self).state(),
                pipe_outcome_view(outcome),
            ),
            match outcome {
                Some(Err(e)) => r matches PipelineStep::Stop(m) && m@ == e@ && final(self).finished(),
                _ => {
                    let pos = if outcome is Some {
                        old(self).pos() + 1
                    } else {
                        old(self).pos()
                    };
                    let carried = match outcome {
                        Some(Ok(b)) => Some(b@),
                        _ => old(self).carried(),
                    };
                    &&& next_step(old(self).jobs_view(), pos, carried, r)
                    &&& final(self).pos() == pos
                    &&& final(self).finished() == !(r is Run)
                    &&& final(self).running() == (r is Run)
                },
            },
    {
        match outcome {
            Some(Err(e)) => {
                self.finished = true;
                self.running = false;
                return PipelineStep::Stop(e);
            },
            Some(Ok(b)) => {
                self.pos = self.pos + 1;
                self.carried = Some(b);
                self.running = false;
            },
            None => {},
        }
        let ghost jv = self.jobs@.map_values(|j: Result<Vec<String>, String>| job_view(j));
        if self.pos >= self.jobs.len() {
            self.finished = true;
            let out = match self.carried.take() {
                Some(b) => b,
                None => Vec::new(),
            };
            return PipelineStep::Finish(out);
        }
        assert(jv[self.pos as int] == job_view(self.jobs@[self.pos as int]));
        match &self.jobs[self.pos] {
            Err(e) => {
                self.finished = true;
                PipelineStep::Stop(e.clone())
            },
            Ok(argv) => {
                let a = argv.clone();
                let input = match self.carried.take() {
                    Some(b) => StageInput::Bytes(b),
                    None => StageInput::Initial,
                };
                self.running = true;
                PipelineStep::Run(a, input)
            },
        }
    }
}

/// The commands of a line being run one after the other; the first that
/// fails ends the line.
pub struct LineRun {
    segments: Vec<String>,
    pos: usize,
    running: bool,
    finished: bool,
}

/// What the shell does next while running the commands of a line.
pub enum LineStep {
    /// Run this command and report back its outcome.
    Run(String),
    /// The line ends with this error.
    Fail(String),
    /// Every command ran.
    Done,
}

/// A step as a plain value: `Ok(Some(c))` runs `c`, `Ok(None)` is done,
/// `Err(e)` ends the line with `e`.
pub open spec fn line_step_view(r: LineStep) -> Result<Option<Seq<char>>, Seq<char>> {
    match r {
        LineStep::Run(c) => Ok(Some(c@)),
        LineStep::Fail(e) => Err(e@),
        LineStep::Done => Ok(None),
    }
}

/// The outcome of a command as a plain value.
pub open spec fn line_outcome_view(o: Option<Result<(), String>>) -> Option<Result<(), Seq<char>>> {
    match o {
        None => None,
        Some(Ok(())) => Some(Ok(())),
        Some(Err(e)) => Some(Err(e@)),
    }
}

/// One step of running the commands `segs` of a line, from the state
/// `(commands run, one handed out, ended)` and the outcome of the command
/// handed out last (`None` at the start): the new state and the step.
pub open spec fn line_next(
    segs: Seq<Seq<char>>,
    st: (int, bool, bool),
    outcome: Option<Result<(), Seq<char>>>,
) -> ((int, bool, bool), Result<Option<Seq<char>>, Seq<char>>) {
    match outcome {
        Some(Err(e)) => ((st.0, false, true), Err(e)),
        _ => {
            let pos = if outcome is Some {
                st.0 + 1
            } else {
                st.0
            };
            if pos >= segs.len() {
                ((pos, false, true), Ok(None))
            } else {
                ((pos, true, false), Ok(Some(segs[pos])))
            }
        },
    }
}

/// The state after feeding `outcomes` to a run of `segs` that has not
/// started, and the steps it gave, in order.
pub open spec fn line_trace(segs: Seq<Seq<char>>, outcomes: Seq<Option<Result<(), Seq<char>>>>) -> (
    (int, bool, bool),
    Seq<Result<Option<Seq<char>>, Seq<char>>>,
)
    decreases outcomes.len(),
{
    if outcomes.len() == 0 {
        ((0, false, false), Seq::empty())
    } else {
        let (st, steps) = line_trace(segs, outcomes.drop_last());
        let (st2, s) = line_next(segs, st, outcomes.last());
        (st2, steps.push(s))
    }
}

/// What is fed to a run when the commands give `results` in turn: nothing
/// at the start, then each result.
pub open spec fn line_feed(results: Seq<Result<(), Seq<char>>>) -> Seq<Option<Result<(), Seq<char>>>> {
    seq![None::<Result<(), Seq<char>>>] + results.map_values(|r: Result<(), Seq<char>>| Some(r))
}

/// How a run that got `results` ends: with the error of the last result when
/// it failed, else done.
pub open spec fn line_end(results: Seq<Result<(), Seq<char>>>) -> Result<Option<Seq<char>>, Seq<char>> {
    if results.len() > 0 {
        match results.last() {
            Err(e) => Err(e),
            Ok(_) => Ok(None),
        }
    } else {
        Ok(None)
    }
}

proof fn lemma_line_prefix(segs: Seq<Seq<char>>, results: Seq<Result<(), Seq<char>>>, j: int)
    requires
        0 <= j < segs.len(),
        j <= results.len(),
        forall|i: int| 0 <= i < j ==> #[trigger] results[i] is Ok,
    ensures
        line_trace(segs, line_feed(results).take(j + 1)).0 == (j, true, false),
        line_trace(segs, line_feed(results).take(j + 1)).1 =~= Seq::new(
            (j + 1) as nat,
            |i: int| Ok::<Option<Seq<char>>, Seq<char>>(Some(segs[i])),
        ),
    decreases j,
{
    let f = line_feed(results);
    let want = Seq::new(
        (j + 1) as nat,
        |i: int| Ok::<Option<Seq<char>>, Seq<char>>(Some(segs[i])),
    );
    assert(f.len() == results.len() + 1);
    if j == 0 {
        let e = f.take(1).drop_last();
        assert(e =~= Seq::<Option<Result<(), Seq<char>>>>::empty());
        assert(line_trace(segs, e) == ((0int, false, false), Seq::<Result<Option<Seq<char>>, Seq<char>>>::empty()));
        assert(f[0] == None::<Result<(), Seq<char>>>);
        assert(f.take(1).last() == f[0]);
        assert(Seq::<Result<Option<Seq<char>>, Seq<char>>>::empty().push(want[0]) =~= want);
    } else {
        lemma_line_prefix(segs, results, j - 1);
        let prev = Seq::new(
            j as nat,
            |i: int| Ok::<Option<Seq<char>>, Seq<char>>(Some(segs[i])),
        );
        assert(f.take(j + 1).drop_last() =~= f.take(j));
        assert(line_trace(segs, f.take(j)).1 == prev);
        assert(f.take(j + 1).last() == f[j]);
        assert(f[j] == Some(results[j - 1]));
        assert(results[j - 1] is Ok);
        assert(prev.push(want[j]) =~= want);
    }
}

/// Running the commands of a line: when the commands of `raw` (its trimmed,
/// non-empty `;` pieces, see `Shell::handle_line`) give `results` in turn,
/// every result but the last being a success and the run going on until the
/// last command or a failure, the run hands out the commands in order, one
/// per result, each only after the one before it succeeded; it then ends with
/// the error of the failed command, or is done when every command succeeded
/// (at once, for a line without commands). No later command is handed out.
pub proof fn law_line_runs_commands_in_order(raw: Seq<char>, results: Seq<Result<(), Seq<char>>>)
    requires
        results.len() <= trimmed_nonempty(split_on(trim(raw), ';')).len(),
        forall|i: int| 0 <= i < results.len() - 1 ==> #[trigger] results[i] is Ok,
        results.len() == trimmed_nonempty(split_on(trim(raw), ';')).len() || (results.len() > 0
            && results.last() is Err),
    ensures
        ({
            let segs = trimmed_nonempty(split_on(trim(raw), ';'));
            let (st, steps) = line_trace(segs, line_feed(results));
            &&& steps.len() == results.len() + 1
            &&& forall|i: int|
                0 <= i < results.len() ==> #[trigger] steps[i] == Ok::<Option<Seq<char>>, Seq<char>>(
                    Some(segs[i]),
                )
            &&& steps[results.len() as int] == line_end(results)
            &&& st.2
        }),
{
    let segs = trimmed_nonempty(split_on(trim(raw), ';'));
    let f = line_feed(results);
    let n = results.len() as int;
    assert(f.len() == n + 1);
    assert(f.take(n + 1) =~= f);
    if n == 0 {
        let e = f.drop_last();
        assert(e =~= Seq::<Option<Result<(), Seq<char>>>>::empty());
        assert(line_trace(segs, e) == ((0int, false, false), Seq::<Result<Option<Seq<char>>, Seq<char>>>::empty()));
        assert(f[0] == None::<Result<(), Seq<char>>>);
        assert(f.last() == f[0]);
    } else {
        assert forall|i: int| 0 <= i < n - 1 implies #[trigger] results[i] is Ok by {}
        lemma_line_prefix(segs, results, n - 1);
        assert(f.drop_last() =~= f.take(n));
        assert(f.last() == f[n]);
        assert(f[n] == Some(results[n - 1]));
        assert(results.last() == results[n - 1]);
        let prev = line_trace(segs, f.take(n)).1;
        let steps = line_trace(segs, f).1;
        assert(steps == prev.push(line_next(segs, (n - 1, true, false), f[n]).1));
        assert forall|i: int| 0 <= i < n implies #[trigger] steps[i] == Ok::<Option<Seq<char>>, Seq<char>>(
            Some(segs[i]),
        ) by {
            assert(steps[i] == prev[i]);
        }
    }
}

impl LineRun {
    /// The commands of the line, in order.
    pub closed spec fn segments_view(&self) -> Seq<Seq<char>> {
        views(self.segments@)
    }

    /// The run's state: `(commands run, one handed out, ended)`.
    pub closed spec fn state(&self) -> (int, bool, bool) {
        (self.pos as int, self.running, self.finished)
    }

    /// How many commands have run.
    pub closed spec fn pos(&self) -> int {
        self.pos as int
    }

    /// Whether a command was handed out and its outcome is awaited.
    pub closed spec fn running(&self) -> bool {
        self.running
    }

    /// Whether the line has ended.
    pub closed spec fn finished(&self) -> bool {
        self.finished
    }

    /// The run's invariant: the commands that ran lie within the line, and a
    /// command handed out is one of them.
    pub closed spec fn wf(&self) -> bool {
        &&& self.pos <= self.segments.len()
        &&& self.running ==> self.pos < self.segments.len()
    }

    /// A run of the given commands that has not started.
    pub fn new(segments: Vec<String>) -> (r: LineRun)
        ensures
            r.wf(),
            r.segments_view() == views(segments@),
            r.state() == (0int, false, false),
            r.pos() == 0,
            !r.running(),
            !r.finished(),
    {
        LineRun { segments, pos: 0, running: false, finished: false }
    }

    /// Takes the outcome of the command handed out last (`None` at the start)
    /// and says what comes next: a failed command ends the line with its
    /// error; otherwise the next command runs, or the line is done.
    pub fn step(&mut self, outcome: Option<Result<(), String>>) -> (r: LineStep)
        requires
            old(self).wf(),
            !old(self).finished(),
            old(self).running() <==> outcome is Some,
        ensures
            final(self).wf(),
            final(self).segments_view() == old(self).segments_view(),
            (final(self).state(), line_step_view(r)) == line_next(
                old(self).segments_view(),
                old(self).state(),
                line_outcome_view(outcome),
            ),
            match outcome {
                Some(Err(e)) => r matches LineStep::Fail(m) && m@ == e@ && final(self).finished(),
                _ => {
                    let pos = if outcome is Some {
                        old(self).pos() + 1
                    } else {
                        old(self).pos()
                    };
                    &&& final(self).pos() == pos
                    &&& if pos >= old(self).segments_view().len() {
                        r is Done && final(self).finished()
                    } else {
                        r matches LineStep::Run(c) && c@ == old(self).segments_view()[pos]
                            && final(self).running() && !final(self).finished()
                    }
                },
            },
    {
        match outcome {
            Some(Err(e)) => {
                self.finished = true;
                self.running = false;
                return LineStep::Fail(e);
            },
            Some(Ok(())) => {
                self.pos = self.pos + 1;
                self.running = false;
            },
            None => {},
        }
        if self.pos >= self.segments.len() {
            self.finished = true;
            return LineStep::Done;
        }
        self.running = true;
        LineStep::Run(self.segments[self.pos].clone())
    }
}

/// The builtin commands.
#[derive(Debug, Clone, Copy, PartialEq, Eq)]
pub enum Builtin {
    /// Leave the shell with the given status.
    Exit(i32),
    Echo,
    Pwd,
    Cd,
    Ls,
    Cat,
    Cp,
    Rm,
    Mv,
    Mkdir,
    Help,
    History,
}

/// The status `exit` leaves with: its first argument when that is an integer
/// that fits an `i32`, else 0.
pub open spec fn exit_status(args: Seq<Seq<char>>) -> i32 {
    if args.len() > 0 {
        match parse_i32_spec(args[0]) {
            Some(v) => v,
            None => 0,
        }
    } else {
        0
    }
}

/// The builtin that a command names, or the "not found" message.
pub open spec fn builtin_of(argv: Seq<Seq<char>>) -> Result<Builtin, Seq<char>> {
    let name = argv[0];
    if name == "exit"@ {
        Ok(Builtin::Exit(exit_status(argv.drop_first())))
    } else if name == "echo"@ {
        Ok(Builtin::Echo)
    } else if name == "pwd"@ {
        Ok(Builtin::Pwd)
    } else if name == "cd"@ {
        Ok(Builtin::Cd)
    } else if name == "ls"@ {
        Ok(Builtin::Ls)
    } else if name == "cat"@ {
        Ok(Builtin::Cat)
    } else if name == "cp"@ {
        Ok(Builtin::Cp)
    } else if name == "rm"@ {
        Ok(Builtin::Rm)
    } else if name == "mv"@ {
        Ok(Builtin::Mv)
    } else if name == "mkdir"@ {
        Ok(Builtin::Mkdir)
    } else if name == "help"@ {
        Ok(Builtin::Help)
    } else if name == "history"@ {
        Ok(Builtin::History)
    } else {
        Err("Command '"@ + name + "' not found"@)
    }
}

/// Chooses the builtin that the first word of a command names; any other
/// name is answered with "Command '<name>' not found".
pub fn dispatch(argv: &[String]) -> (r: Result<Builtin, String>)
    requires
        argv.len() > 0,
    ensures
        match builtin_of(views(argv@)) {
            Ok(b) => r == Ok::<Builtin, String>(b),
            Err(m) => r matches Err(e) && e@ == m,
        },
{
    let name = argv[0].as_str();
    assert(views(argv@)[0] == argv[0]@);
    if text_eq(name, "exit") {
        let mut code: i32 = 0;
        if argv.len() > 1 {
            match parse_i32(argv[1].as_str()) {
                Some(v) => code = v,
                None => {},
            }
        }
        assert(views(argv@).drop_first().len() > 0 ==> views(argv@).drop_first()[0] == argv[1]@);
        return Ok(Builtin::Exit(code));
    }
    if text_eq(name, "echo") {
        return Ok(Builtin::Echo);
    }
    if text_eq(name, "pwd") {
        return Ok(Builtin::Pwd);
    }
    if text_eq(name, "cd") {
        return Ok(Builtin::Cd);
    }
    if text_eq(name, "ls") {
        return Ok(Builtin::Ls);
    }
    if text_eq(name, "cat") {
        return Ok(Builtin::Cat);
    }
    if text_eq(name, "cp") {
        return Ok(Builtin::Cp);
    }
    if text_eq(name, "rm") {
        return Ok(Builtin::Rm);
    }
    if text_eq(name, "mv") {
        return Ok(Builtin::Mv);
    }
    if text_eq(name, "mkdir") {
        return Ok(Builtin::Mkdir);
    }
    if text_eq(name, "help") {
        return Ok(Builtin::Help);
    }
    if text_eq(name, "history") {
        return Ok(Builtin::History);
    }
    let mut m = String::new();
    proof {
        reveal_strlit("Command '");
        reveal_strlit("' not found");
    }
    push_str(&mut m, "Command '");
    push_str(&mut m, name);
    push_str(&mut m, "' not found");
    Err(m)
}

/// The commands of a line are trimmed, not empty, and hold no `;`.
pub proof fn law_line_commands_are_clean(raw: Seq<char>)
    ensures
        forall|k: int|
            0 <= k < trimmed_nonempty(split_on(trim(raw), ';')).len() ==> {
                &&& #[trigger] trimmed_nonempty(split_on(trim(raw), ';'))[k].len() > 0
                &&& is_trimmed(trimmed_nonempty(split_on(trim(raw), ';'))[k])
                &&& !has_char(trimmed_nonempty(split_on(trim(raw), ';'))[k], ';')
            },
{
    law_split_pieces_are_clean(trim(raw), ';');
}

/// A command without `>` or `<` has no redirection, and its stages are the
/// pieces between its `|`, trimmed, the empty ones left out.
pub proof fn law_no_redirection(raw: Seq<char>)
    requires
        !has_char(raw, '>'),
        !has_char(raw, '<'),
    ensures
        command_parts(raw) == Ok::<(Option<Seq<char>>, Option<Seq<char>>, Seq<Seq<char>>), Seq<char>>(
            (None, None, trimmed_nonempty(split_on(raw, '|'))),
        ),
{
    lemma_no_char_no_index(raw, '>');
    lemma_no_char_no_index(raw, '<');
}

/// `exit N`, with `N` written in decimal and fitting an `i32`, leaves the shell
/// with status `N`.
pub proof fn law_exit_with_status(n: nat)
    requires
        n <= i32::MAX,
    ensures
        builtin_of(seq!["exit"@, decimal(n)]) == Ok::<Builtin, Seq<char>>(Builtin::Exit(n as i32)),
{
    lemma_decimal_digits(n);
    let d = decimal(n);
    assert(seq!["exit"@, decimal(n)].drop_first() =~= seq![d]);
    assert(d[0] != '+' && d[0] != '-') by {
        assert(is_digit(d[0]));
    }
    assert(parse_int(d) == Some(n as int));
}

/// After a successful change of directory (which makes the directory left the
/// previous one, see `Shell::chdir`), `cd -` goes back to the directory that was left.
pub proof fn law_cd_dash_goes_back(sh: Shell, left: Seq<char>, home: Option<Seq<char>>)
    requires
        sh.prev_view() == Some(left),
    ensures
        crate::builtins::cd::cd_target(seq![seq!['-']], home, sh.prev_view()) == Some(left),
{
}

} // verus!
