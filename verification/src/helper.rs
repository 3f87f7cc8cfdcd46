//! Tab completion: command names from a prefix tree, the output of a
//! completion script, and the touch-up of file-name candidates.
use vstd::prelude::*;
use crate::order::strictly_sorted;
use crate::string_map::{
    entries_insert, keys_distinct, lemma_insert_then_lookup, lookup, Entries, StringMap,
};
use crate::text::{
    contains_char, ends_with_char, lines, push_char, split_lines, trim_end, trim_end_string, views,
};
use crate::trie::{completions, paths_of_words, Trie};

verus! {

/// A completion offered to the line editor: what the list shows and what
/// replaces the word.
pub struct Candidate {
    pub display: String,
    pub replacement: String,
}

impl Candidate {
    pub open spec fn view(&self) -> (Seq<char>, Seq<char>) {
        (self.display@, self.replacement@)
    }
}

/// The views of a list of candidates.
pub open spec fn candidate_views(v: Seq<Candidate>) -> Seq<(Seq<char>, Seq<char>)> {
    v.map_values(|c: Candidate| c@)
}

/// The candidates for the completions `ws`: each word shown as it is, and a
/// single word followed by a space.
pub open spec fn word_candidates(ws: Seq<Seq<char>>) -> Seq<(Seq<char>, Seq<char>)> {
    if ws.len() == 1 {
        seq![(ws[0].push(' '), ws[0].push(' '))]
    } else {
        ws.map_values(|w: Seq<char>| (w, w))
    }
}

/// The candidates that a completion script's output offers: each line
/// followed by a space.
pub open spec fn script_candidates_spec(output: Seq<char>) -> Seq<(Seq<char>, Seq<char>)> {
    lines(output).map_values(|l: Seq<char>| (l.push(' '), l.push(' ')))
}

/// File-name candidates after the touch-up: a single one that is not a
/// directory gets a space, and every one shows what it replaces with.
pub open spec fn file_candidates_spec(c: Seq<(Seq<char>, Seq<char>)>) -> Seq<(Seq<char>, Seq<char>)> {
    if c.len() == 1 && !(c[0].1.len() > 0 && c[0].1.last() == '/') {
        seq![(c[0].1.push(' '), c[0].1.push(' '))]
    } else {
        c.map_values(|p: (Seq<char>, Seq<char>)| (p.1, p.1))
    }
}

/// How to complete a line.
pub enum CompletionRequest {
    /// Run this completion script and offer its output, or, if that fails,
    /// complete file names.
    Script(String),
    /// Complete file names.
    Files,
    /// These command names, to replace the whole line.
    Commands(Vec<Candidate>),
}

/// The completion state of the shell: the command names and the completion
/// scripts registered for command lines.
pub struct MyHelper {
    commands: Trie,
    completer_scripts: StringMap,
}

impl MyHelper {
    /// The paths of the tree of command names.
    pub closed spec fn commands_view(&self) -> Set<Seq<char>> {
        self.commands@
    }

    /// The completion scripts, by command line.
    pub closed spec fn scripts_view(&self) -> Entries {
        self.completer_scripts@
    }

    pub closed spec fn wf(&self) -> bool {
        self.commands.wf() && self.completer_scripts.wf()
    }

    /// In a well-formed helper no command line has two scripts.
    pub proof fn lemma_scripts_distinct(&self)
        requires
            self.wf(),
        ensures
            keys_distinct(self.scripts_view()),
    {
    }

    /// No command names and no scripts.
    pub fn new() -> (h: Self)
        ensures
            h.wf(),
            h.commands_view() == paths_of_words(Set::empty()),
            h.scripts_view() == Seq::<(Seq<char>, Seq<char>)>::empty(),
    {
        proof {
            crate::trie::lemma_empty_tree_holds_no_words();
        }
        MyHelper { commands: Trie::new(), completer_scripts: StringMap::new() }
    }

    /// Completion over the command names `commands`.
    pub fn from_commands(commands: &Vec<String>) -> (h: Self)
        ensures
            h.wf(),
            h.commands_view() == paths_of_words(views(commands@).to_set()),
            h.scripts_view() == Seq::<(Seq<char>, Seq<char>)>::empty(),
    {
        let mut h = MyHelper::new();
        let mut i: usize = 0;
        assert(views(commands@).take(0).to_set() =~= Set::<Seq<char>>::empty());
        while i < commands.len()
            invariant
                i <= commands@.len(),
                h.wf(),
                h.commands_view() == paths_of_words(views(commands@).take(i as int).to_set()),
                h.scripts_view() == Seq::<(Seq<char>, Seq<char>)>::empty(),
            decreases commands@.len() - i,
        {
            let ghost before = views(commands@).take(i as int).to_set();
            h.commands.insert(commands[i].as_str());
            proof {
                crate::trie::lemma_insert_word(before, commands@[i as int]@);
                assert(views(commands@).take(i + 1) =~= views(commands@).take(i as int).push(
                    commands@[i as int]@,
                ));
                views(commands@).take(i as int).lemma_push_to_set_commute(commands@[i as int]@);
                assert(views(commands@).take(i + 1).to_set() =~= before.insert(
                    commands@[i as int]@,
                ));
            }
            i = i + 1;
        }
        assert(views(commands@).take(commands@.len() as int) =~= views(commands@));
        h
    }

    /// Registers `value` as the completion script for `key`, giving back the
    /// script it replaced.
    pub fn insert_completer_script(&mut self, key: String, value: String) -> (res: Option<String>)
        requires
            old(self).wf(),
        ensures
            final(self).wf(),
            final(self).commands_view() == old(self).commands_view(),
            final(self).scripts_view() == entries_insert(old(self).scripts_view(), key@, value@),
            lookup(final(self).scripts_view(), key@) == Some(value@),
            forall|other: Seq<char>|
                other != key@ ==> #[trigger] lookup(final(self).scripts_view(), other) == lookup(
                    old(self).scripts_view(),
                    other,
                ),
            match res {
                Some(v) => lookup(old(self).scripts_view(), key@) == Some(v@),
                None => lookup(old(self).scripts_view(), key@).is_none(),
            },
    {
        let ghost before = self.scripts_view();
        let ghost k = key@;
        let ghost v = value@;
        let res = self.completer_scripts.insert(key.as_str(), value);
        proof {
            lemma_insert_then_lookup(before, k, v, k);
            assert forall|other: Seq<char>| other != k implies #[trigger] lookup(
                self.scripts_view(),
                other,
            ) == lookup(before, other) by {
                lemma_insert_then_lookup(before, k, v, other);
            }
        }
        res
    }

    /// The completion script for `key`, if any.
    pub fn get_completer_script(&self, key: &str) -> (res: Option<&String>)
        requires
            self.wf(),
        ensures
            match res {
                Some(v) => lookup(self.scripts_view(), key@) == Some(v@),
                None => lookup(self.scripts_view(), key@).is_none(),
            },
    {
        self.completer_scripts.get(key)
    }

    /// How to complete `line`: a line with a space completes an argument,
    /// through the script registered for the line (trailing white space
    /// ignored) or else file names; a line without one completes a command
    /// name.
    pub fn complete_request(&self, line: &str) -> (req: CompletionRequest)
        requires
            self.wf(),
        ensures
            line@.contains(' ') ==> match lookup(self.scripts_view(), trim_end(line@)) {
                Some(script) => (req matches CompletionRequest::Script(s) && s@ == script),
                None => req is Files,
            },
            !line@.contains(' ') ==> (req matches CompletionRequest::Commands(c) && exists|
                ws: Seq<Seq<char>>,
            |
                {
                    &&& strictly_sorted(ws)
                    &&& forall|x: Seq<char>| #[trigger]
                        ws.contains(x) == completions(self.commands_view(), line@).contains(x)
                    &&& candidate_views(c@) == word_candidates(ws)
                }),
    {
        if contains_char(line, ' ') {
            let key = trim_end_string(line);
            match self.completer_scripts.get(key.as_str()) {
                Some(script) => CompletionRequest::Script(script.clone()),
                None => CompletionRequest::Files,
            }
        } else {
            let words = self.commands.starts_with(line);
            let ghost ws = views(words@);
            let mut cands: Vec<Candidate> = Vec::new();
            if words.len() == 1 {
                let mut w = words[0].clone();
                push_char(&mut w, ' ');
                cands.push(Candidate { display: w.clone(), replacement: w });
                assert(candidate_views(cands@) =~= word_candidates(ws));
            } else {
                let mut i: usize = 0;
                while i < words.len()
                    invariant
                        i <= words@.len(),
                        ws == views(words@),
                        ws.len() != 1,
                        candidate_views(cands@) == word_candidates(ws).take(i as int),
                    decreases words@.len() - i,
                {
                    let ghost before = cands@;
                    let w = words[i].clone();
                    cands.push(Candidate { display: w.clone(), replacement: w });
                    assert(candidate_views(cands@) =~= candidate_views(before).push(
                        (ws[i as int], ws[i as int]),
                    ));
                    assert(word_candidates(ws).take(i + 1) =~= word_candidates(ws).take(
                        i as int,
                    ).push((ws[i as int], ws[i as int])));
                    i = i + 1;
                }
                assert(word_candidates(ws).take(words@.len() as int) =~= word_candidates(ws));
            }
            CompletionRequest::Commands(cands)
        }
    }
}

/// The candidates that a completion script's output `output` offers: each
/// of its lines followed by a space.
pub fn script_candidates(output: &str) -> (res: Vec<Candidate>)
    ensures
        candidate_views(res@) == script_candidates_spec(output@),
{
    let ls = split_lines(output);
    let mut res: Vec<Candidate> = Vec::new();
    let mut i: usize = 0;
    while i < ls.len()
        invariant
            i <= ls@.len(),
            views(ls@) == lines(output@),
            candidate_views(res@) == script_candidates_spec(output@).take(i as int),
        decreases ls@.len() - i,
    {
        let ghost before = res@;
        let mut s = ls[i].clone();
        push_char(&mut s, ' ');
        res.push(Candidate { display: s.clone(), replacement: s });
        assert(candidate_views(res@) =~= candidate_views(before).push(
            (ls@[i as int]@.push(' '), ls@[i as int]@.push(' ')),
        ));
        assert(script_candidates_spec(output@).take(i + 1) =~= script_candidates_spec(
            output@,
        ).take(i as int).push((ls@[i as int]@.push(' '), ls@[i as int]@.push(' '))));
        i = i + 1;
    }
    assert(script_candidates_spec(output@).take(ls@.len() as int) =~= script_candidates_spec(
        output@,
    ));
    res
}

/// Touches up the file-name candidates `candidates`: a single one that does
/// not end with `/` gets a space, and each shows its replacement.
pub fn finish_file_candidates(candidates: Vec<Candidate>) -> (res: Vec<Candidate>)
    ensures
        candidate_views(res@) == file_candidates_spec(candidate_views(candidates@)),
{
    let ghost cv = candidate_views(candidates@);
    if candidates.len() == 1 && !ends_with_char(candidates[0].replacement.as_str(), '/') {
        let mut r = candidates[0].replacement.clone();
        push_char(&mut r, ' ');
        let mut res: Vec<Candidate> = Vec::new();
        res.push(Candidate { display: r.clone(), replacement: r });
        assert(candidate_views(res@) =~= file_candidates_spec(cv));
        return res;
    }
    let mut res: Vec<Candidate> = Vec::new();
    let mut i: usize = 0;
    while i < candidates.len()
        invariant
            i <= candidates@.len(),
            cv == candidate_views(candidates@),
            file_candidates_spec(cv) == cv.map_values(|p: (Seq<char>, Seq<char>)| (p.1, p.1)),
            candidate_views(res@) == file_candidates_spec(cv).take(i as int),
        decreases candidates@.len() - i,
    {
        let ghost before = res@;
        let r = candidates[i].replacement.clone();
        res.push(Candidate { display: r.clone(), replacement: r });
        assert(candidate_views(res@) =~= candidate_views(before).push((cv[i as int].1, cv[i as int].1)));
        assert(file_candidates_spec(cv).take(i + 1) =~= file_candidates_spec(cv).take(i as int).push(
            (cv[i as int].1, cv[i as int].1),
        ));
        i = i + 1;
    }
    assert(file_candidates_spec(cv).take(candidates@.len() as int) =~= file_candidates_spec(cv));
    res
}

/// Candidates keep the count and order of what they offer and show what
/// they insert; only a lone candidate gets a trailing space, and a lone file
/// name ending in `/` (a directory) gets none.
pub proof fn lemma_candidate_shapes(ws: Seq<Seq<char>>, c: Seq<(Seq<char>, Seq<char>)>)
    ensures
        word_candidates(ws).len() == ws.len(),
        forall|i: int|
            0 <= i < ws.len() ==> (#[trigger] word_candidates(ws)[i]).0 == word_candidates(ws)[i].1,
        ws.len() == 1 ==> word_candidates(ws)[0].1 == ws[0].push(' '),
        ws.len() != 1 ==> forall|i: int|
            0 <= i < ws.len() ==> (#[trigger] word_candidates(ws)[i]).1 == ws[i],
        file_candidates_spec(c).len() == c.len(),
        forall|i: int|
            0 <= i < c.len() ==> (#[trigger] file_candidates_spec(c)[i]).0
                == file_candidates_spec(c)[i].1,
        c.len() == 1 && c[0].1.len() > 0 && c[0].1.last() == '/' ==> file_candidates_spec(c)[0].1
            == c[0].1,
        c.len() == 1 && !(c[0].1.len() > 0 && c[0].1.last() == '/') ==> file_candidates_spec(
            c,
        )[0].1 == c[0].1.push(' '),
        c.len() != 1 ==> forall|i: int|
            0 <= i < c.len() ==> (#[trigger] file_candidates_spec(c)[i]).1 == c[i].1,
{
}

} // verus!
