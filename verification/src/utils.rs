//! Pipelines and redirections: where a command stands in a pipeline, how a
//! line splits into pipeline stages, and which trailing words redirect its
//! output.
use vstd::prelude::*;
use crate::text::{str_is, views};

verus! {

/// Where a process stands in a pipeline.
#[derive(Debug, Clone, Copy, PartialEq, Eq, Structural)]
pub enum ProcessPosition {
    First,
    Middle,
    Last,
    FirstAndLast,
}

/// The position of stage `idx` of a pipeline of `len` stages.
pub open spec fn position_of(idx: int, len: int) -> ProcessPosition {
    if idx == 0 && idx == len - 1 {
        ProcessPosition::FirstAndLast
    } else if idx == 0 {
        ProcessPosition::First
    } else if idx == len - 1 {
        ProcessPosition::Last
    } else {
        ProcessPosition::Middle
    }
}

impl ProcessPosition {
    /// The process reads the pipeline's input rather than a pipe.
    pub open spec fn starts_pipeline(self) -> bool {
        self is FirstAndLast || self is First
    }

    /// The process writes the pipeline's output rather than a pipe.
    pub open spec fn ends_pipeline(self) -> bool {
        self is FirstAndLast || self is Last
    }

    /// The position of stage `idx` of a pipeline of `len` stages.
    pub fn new(idx: usize, len: usize) -> (p: Self)
        requires
            len >= 1,
        ensures
            p == position_of(idx as int, len as int),
    {
        if idx == 0 && idx == len - 1 {
            ProcessPosition::FirstAndLast
        } else if idx == 0 {
            ProcessPosition::First
        } else if idx == len - 1 {
            ProcessPosition::Last
        } else {
            ProcessPosition::Middle
        }
    }

    /// Whether this is the first stage.
    pub fn is_first(&self) -> (b: bool)
        ensures
            b == self.starts_pipeline(),
    {
        match self {
            ProcessPosition::FirstAndLast | ProcessPosition::First => true,
            _ => false,
        }
    }

    /// Whether this is the last stage.
    pub fn is_last(&self) -> (b: bool)
        ensures
            b == self.ends_pipeline(),
    {
        match self {
            ProcessPosition::FirstAndLast | ProcessPosition::Last => true,
            _ => false,
        }
    }
}

/// Stage `idx` of `len` starts the pipeline exactly when it is stage 0, and
/// ends it exactly when it is the last one.
pub proof fn lemma_position_ends(idx: int, len: int)
    requires
        len >= 1,
    ensures
        position_of(idx, len).starts_pipeline() == (idx == 0),
        position_of(idx, len).ends_pipeline() == (idx == len - 1),
{
}

/// Whether a file's permission bits let others execute it.
pub fn is_executable_mode(mode: u32) -> (res: bool)
    ensures
        res == (mode % 2 == 1),
{
    proof {
        assert(mode & 1 == mode % 2) by (bit_vector);
    }
    mode & 0o001 == 1
}

/// Where a redirection sends output, and how.
#[derive(Debug, Clone, Copy, PartialEq, Eq, Structural)]
pub enum RedirectKind {
    /// `>` or `1>`: standard output to a file, truncated.
    StdoutTruncate,
    /// `>>` or `1>>`: standard output appended to a file.
    StdoutAppend,
    /// `2>`: standard error to a file, truncated.
    StderrTruncate,
    /// `2>>`: standard error appended to a file.
    StderrAppend,
}

/// The redirection that the operator `op` stands for, if any.
pub open spec fn redirect_kind(op: Seq<char>) -> Option<RedirectKind> {
    if op == ">"@ || op == "1>"@ {
        Some(RedirectKind::StdoutTruncate)
    } else if op == ">>"@ || op == "1>>"@ {
        Some(RedirectKind::StdoutAppend)
    } else if op == "2>"@ {
        Some(RedirectKind::StderrTruncate)
    } else if op == "2>>"@ {
        Some(RedirectKind::StderrAppend)
    } else {
        None
    }
}

/// The redirection that the operator `op` stands for, if any.
pub fn redirect_kind_of(op: &str) -> (res: Option<RedirectKind>)
    ensures
        res == redirect_kind(op@),
{
    if str_is(op, ">") || str_is(op, "1>") {
        Some(RedirectKind::StdoutTruncate)
    } else if str_is(op, ">>") || str_is(op, "1>>") {
        Some(RedirectKind::StdoutAppend)
    } else if str_is(op, "2>") {
        Some(RedirectKind::StderrTruncate)
    } else if str_is(op, "2>>") {
        Some(RedirectKind::StderrAppend)
    } else {
        None
    }
}

/// The redirection that ends `words`, if any: an operator followed by a file
/// name as the last two words.
pub open spec fn trailing_redirection(words: Seq<Seq<char>>) -> Option<(RedirectKind, Seq<char>)> {
    if words.len() >= 2 && redirect_kind(words[words.len() - 2]) is Some {
        Some((redirect_kind(words[words.len() - 2])->0, words[words.len() - 1]))
    } else {
        None
    }
}

/// Takes a trailing redirection off `user_inputs`: when the last two words
/// are an operator and a file name they are removed and returned, otherwise
/// the words stay as they are.
pub fn split_redirection(user_inputs: &mut Vec<String>) -> (res: Option<(RedirectKind, String)>)
    ensures
        match trailing_redirection(views(old(user_inputs)@)) {
            Some((kind, file)) => {
                &&& res matches Some((k, f)) && k == kind && f@ == file
                &&& views(final(user_inputs)@) == views(old(user_inputs)@).take(
                    old(user_inputs)@.len() - 2,
                )
            },
            None => res is None && final(user_inputs)@ == old(user_inputs)@,
        },
{
    let n = user_inputs.len();
    if n < 2 {
        return None;
    }
    match redirect_kind_of(user_inputs[n - 2].as_str()) {
        Some(kind) => {
            let ghost before = user_inputs@;
            let file = user_inputs.pop().unwrap();
            user_inputs.pop();
            assert(views(user_inputs@) =~= views(before).take(n - 2));
            Some((kind, file))
        },
        None => None,
    }
}

/// Splitting words at `|`: the stages completed and the one being read.
pub open spec fn pipeline_run(words: Seq<Seq<char>>) -> (Seq<Seq<Seq<char>>>, Seq<Seq<char>>)
    decreases words.len(),
{
    if words.len() == 0 {
        (Seq::empty(), Seq::empty())
    } else {
        let (stages, cur) = pipeline_run(words.drop_last());
        if words.last() == "|"@ {
            (stages.push(cur), Seq::empty())
        } else {
            (stages, cur.push(words.last()))
        }
    }
}

/// The stages of a pipeline: the words between the `|` words.  There is
/// always at least one stage, possibly empty.
pub open spec fn pipeline_stages(words: Seq<Seq<char>>) -> Seq<Seq<Seq<char>>> {
    let (stages, cur) = pipeline_run(words);
    stages.push(cur)
}

/// The views of a sequence of stages.
pub open spec fn stage_views(v: Seq<Vec<String>>) -> Seq<Seq<Seq<char>>> {
    v.map_values(|s: Vec<String>| views(s@))
}

/// Splits the words of a line into the stages of a pipeline.
pub fn split_pipeline(words: Vec<String>) -> (res: Vec<Vec<String>>)
    ensures
        stage_views(res@) == pipeline_stages(views(words@)),
{
    let ghost ws = views(words@);
    let mut stages: Vec<Vec<String>> = Vec::new();
    let mut cur: Vec<String> = Vec::new();
    let mut i: usize = 0;
    let n = words.len();
    assert(ws.take(0) =~= Seq::<Seq<char>>::empty());
    assert(stage_views(stages@) =~= Seq::<Seq<Seq<char>>>::empty());
    assert(views(cur@) =~= Seq::<Seq<char>>::empty());
    while i < n
        invariant
            n == words@.len(),
            ws == views(words@),
            i <= n,
            pipeline_run(ws.take(i as int)) == (stage_views(stages@), views(cur@)),
        decreases n - i,
    {
        assert(ws.take(i + 1).drop_last() =~= ws.take(i as int));
        assert(ws.take(i + 1).last() == words@[i as int]@);
        if str_is(words[i].as_str(), "|") {
            let ghost before = stages@;
            let done = cur;
            cur = Vec::new();
            stages.push(done);
            assert(stage_views(stages@) =~= stage_views(before).push(views(done@)));
            assert(views(cur@) =~= Seq::<Seq<char>>::empty());
        } else {
            let ghost before = cur@;
            cur.push(words[i].clone());
            assert(views(cur@) =~= views(before).push(words@[i as int]@));
        }
        i = i + 1;
    }
    assert(ws.take(n as int) =~= ws);
    let ghost before = stages@;
    stages.push(cur);
    assert(stage_views(stages@) =~= stage_views(before).push(views(cur@)));
    stages
}

/// The stages joined back with `|` words between them.
pub open spec fn join_stages(stages: Seq<Seq<Seq<char>>>) -> Seq<Seq<char>>
    decreases stages.len(),
{
    if stages.len() == 0 {
        Seq::empty()
    } else if stages.len() == 1 {
        stages[0]
    } else {
        join_stages(stages.drop_last()) + seq!["|"@] + stages.last()
    }
}

proof fn lemma_pipeline_run_roundtrip(words: Seq<Seq<char>>)
    ensures
        join_stages(pipeline_stages(words)) == words,
        forall|k: int, j: int|
            0 <= k < pipeline_stages(words).len() && 0 <= j < pipeline_stages(words)[k].len()
                ==> #[trigger] pipeline_stages(words)[k][j] != "|"@,
    decreases words.len(),
{
    if words.len() > 0 {
        let prev = words.drop_last();
        lemma_pipeline_run_roundtrip(prev);
        let (stages, cur) = pipeline_run(prev);
        let w = words.last();
        if w == "|"@ {
            let ps = pipeline_stages(words);
            assert(ps =~= stages.push(cur).push(Seq::empty()));
            assert(ps.drop_last() =~= pipeline_stages(prev));
            assert(join_stages(ps) =~= join_stages(pipeline_stages(prev)) + seq!["|"@]
                + Seq::<Seq<char>>::empty());
            assert(words =~= prev.push(w));
            assert forall|k: int, j: int|
                0 <= k < ps.len() && 0 <= j < ps[k].len() implies #[trigger] ps[k][j] != "|"@ by {
                assert(ps[k] == pipeline_stages(prev)[k]);
            }
        } else {
            let ps = pipeline_stages(words);
            let pp = pipeline_stages(prev);
            assert(ps =~= stages.push(cur.push(w)));
            assert(words =~= prev.push(w));
            if stages.len() == 0 {
                assert(join_stages(ps) == cur.push(w));
                assert(join_stages(pp) == cur);
            } else {
                assert(ps.drop_last() =~= stages);
                assert(pp.drop_last() =~= stages);
                assert(join_stages(ps) =~= join_stages(stages) + seq!["|"@] + cur.push(w));
                assert(join_stages(pp) =~= join_stages(stages) + seq!["|"@] + cur);
            }
            assert forall|k: int, j: int|
                0 <= k < ps.len() && 0 <= j < ps[k].len() implies #[trigger] ps[k][j] != "|"@ by {
                if k < ps.len() - 1 {
                    assert(ps[k] == pp[k]);
                } else if j < cur.len() {
                    assert(ps[k][j] == pp[k][j]);
                }
            }
        }
    } else {
        assert(pipeline_stages(words) =~= seq![Seq::<Seq<char>>::empty()]);
    }
}

/// Joining the stages of a line back with `|` gives the line's words, and no
/// stage holds a `|` word.
pub proof fn lemma_pipeline_roundtrip(words: Seq<Seq<char>>)
    ensures
        join_stages(pipeline_stages(words)) == words,
        forall|k: int, j: int|
            0 <= k < pipeline_stages(words).len() && 0 <= j < pipeline_stages(words)[k].len()
                ==> #[trigger] pipeline_stages(words)[k][j] != "|"@,
{
    lemma_pipeline_run_roundtrip(words);
}

/// The redirection operators: `>` and `1>` truncate standard output into
/// the file, `>>` and `1>>` append it, `2>` and `2>>` do the same for
/// standard error; the file name is the last word, and the words before the
/// operator are the command.
pub proof fn lemma_redirection_operators(words: Seq<Seq<char>>, op: Seq<char>, file: Seq<char>)
    ensures
        (op == ">"@ || op == "1>"@) ==> trailing_redirection(words + seq![op, file]) == Some(
            (RedirectKind::StdoutTruncate, file),
        ),
        (op == ">>"@ || op == "1>>"@) ==> trailing_redirection(words + seq![op, file]) == Some(
            (RedirectKind::StdoutAppend, file),
        ),
        op == "2>"@ ==> trailing_redirection(words + seq![op, file]) == Some(
            (RedirectKind::StderrTruncate, file),
        ),
        op == "2>>"@ ==> trailing_redirection(words + seq![op, file]) == Some(
            (RedirectKind::StderrAppend, file),
        ),
        (words + seq![op, file]).take(words.len() as int) == words,
{
    reveal_strlit(">");
    reveal_strlit("1>");
    reveal_strlit(">>");
    reveal_strlit("1>>");
    reveal_strlit("2>");
    reveal_strlit("2>>");
    let w = words + seq![op, file];
    assert(w[w.len() - 2] == op);
    assert(w[w.len() - 1] == file);
    assert(">>"@.len() != ">"@.len() && ">>"@[0] != "1>"@[0]);
    assert("1>>"@.len() != ">"@.len() && "1>>"@.len() != "1>"@.len());
    assert("2>"@[0] != ">"@[0] && "2>"@[0] != "1>"@[0] && "2>"@[0] != ">>"@[0]);
    assert("2>"@[0] != "1>>"@[0]);
    assert("2>>"@.len() != ">"@.len() && "2>>"@[0] != "1>"@[0] && "2>>"@[0] != ">>"@[0]);
    assert("2>>"@[0] != "1>>"@[0] && "2>>"@.len() != "2>"@.len());
    assert(w.take(words.len() as int) =~= words);
}

/// Without an operator before the last word there is no redirection.
pub proof fn lemma_no_redirection(words: Seq<Seq<char>>)
    requires
        words.len() < 2 || (words[words.len() - 2] != ">"@ && words[words.len() - 2] != "1>"@
            && words[words.len() - 2] != ">>"@ && words[words.len() - 2] != "1>>"@
            && words[words.len() - 2] != "2>"@ && words[words.len() - 2] != "2>>"@),
    ensures
        trailing_redirection(words) is None,
{
}

} // verus!
