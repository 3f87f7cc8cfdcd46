//! The `history` builtin: which request its arguments make, the numbered
//! listing of the line editor's history, and the clean-up of a saved history
//! file.
use vstd::prelude::*;
use rustyline::history::{FileHistory, History};
use crate::text::{
    decimal, lines, parse_usize, parse_usize_spec, push_char, push_decimal, split_lines, str_is,
    views,
};

verus! {

/// The line editor's history, kept in memory and saved to files.
#[verifier::external_type_specification]
#[verifier::external_body]
pub struct ExFileHistory(FileHistory);

/// The entries of a history, oldest first.
pub uninterp spec fn history_entries(h: FileHistory) -> Seq<Seq<char>>;

/// `History::len` of rustyline on a `FileHistory`: the number of entries.
#[verifier::external_body]
fn history_len(h: &FileHistory) -> (n: usize)
    ensures
        n == history_entries(*h).len(),
{
    h.len()
}

/// `FileHistory::iter` of rustyline: the entries, oldest first, copied out.
#[verifier::external_body]
fn history_lines(h: &FileHistory) -> (res: Vec<String>)
    ensures
        views(res@) == history_entries(*h),
{
    h.iter().cloned().collect()
}

/// The most entries a listing can number: it counts with an `i32`.
pub open spec fn listing_limit() -> int {
    2147483647
}

/// Line `idx` of a listing: the number, a space and the entry.
pub open spec fn numbered_line(idx: int, entry: Seq<char>) -> Seq<char> {
    decimal(idx as nat) + seq![' '] + entry + seq!['\n']
}

/// The listing of `entries[from..to]`, numbered from `from + 1`.
pub open spec fn listing(entries: Seq<Seq<char>>, from: int, to: int) -> Seq<char>
    decreases to - from,
{
    if to <= from {
        Seq::empty()
    } else {
        listing(entries, from, to - 1) + numbered_line(to, entries[to - 1])
    }
}

/// Where a listing of the last `count` entries of `len` starts.
pub open spec fn listing_start(len: int, count: Option<usize>) -> int {
    match count {
        None => 0,
        Some(n) => if len > n {
            len - n
        } else {
            0
        },
    }
}

/// The numbered listing of `entries`, or of the last `count` of them.
pub fn list_entries(entries: &Vec<String>, count: Option<usize>) -> (text: String)
    requires
        entries@.len() < listing_limit(),
    ensures
        text@ == listing(
            views(entries@),
            listing_start(entries@.len() as int, count),
            entries@.len() as int,
        ),
{
    let n = entries.len();
    let start = match count {
        None => 0,
        Some(c) => n.saturating_sub(c),
    };
    let mut text = String::new();
    let mut i = start;
    while i < n
        invariant
            start <= i <= n,
            n == entries@.len(),
            text@ == listing(views(entries@), start as int, i as int),
        decreases n - i,
    {
        push_decimal(&mut text, i + 1);
        push_char(&mut text, ' ');
        text.append(entries[i].as_str());
        push_char(&mut text, '\n');
        i = i + 1;
        assert(text@ =~= listing(views(entries@), start as int, i as int));
    }
    text
}

/// Whether the history is short enough to be listed.
pub fn history_fits(history: &FileHistory) -> (res: bool)
    ensures
        res == (history_entries(*history).len() < listing_limit()),
{
    history_len(history) < 2147483647
}

/// The numbered listing of the history, or of its last `count` entries.
pub fn history_listing(history: &FileHistory, count: Option<usize>) -> (text: String)
    requires
        history_entries(*history).len() < listing_limit(),
    ensures
        text@ == listing(
            history_entries(*history),
            listing_start(history_entries(*history).len() as int, count),
            history_entries(*history).len() as int,
        ),
{
    let entries = history_lines(history);
    list_entries(&entries, count)
}

/// What the arguments of `history` ask for.
#[derive(Debug, PartialEq, Eq)]
pub enum HistoryRequest {
    /// List every entry, or the last ones.
    List(Option<usize>),
    /// `-r`: load the entries of a file.
    Read(String),
    /// `-w`: save the history to a file.
    Write(String),
    /// `-a`: append the new entries to a file.
    Append(String),
    /// `-r`, `-w` or `-a` without a file.
    MissingPath,
    /// An argument that is neither an option nor a number.
    InvalidNumber,
}

/// The request that the arguments `args` make.
pub open spec fn history_request_spec(args: Seq<Seq<char>>) -> HistoryRequestView {
    if args.len() == 0 {
        HistoryRequestView::List(None)
    } else if args[0] == "-r"@ || args[0] == "-w"@ || args[0] == "-a"@ {
        if args.len() < 2 {
            HistoryRequestView::MissingPath
        } else if args[0] == "-r"@ {
            HistoryRequestView::Read(args[1])
        } else if args[0] == "-w"@ {
            HistoryRequestView::Write(args[1])
        } else {
            HistoryRequestView::Append(args[1])
        }
    } else {
        match parse_usize_spec(args[0]) {
            Some(n) => HistoryRequestView::List(Some(n)),
            None => HistoryRequestView::InvalidNumber,
        }
    }
}

/// A request with its file names as character sequences.
pub enum HistoryRequestView {
    List(Option<usize>),
    Read(Seq<char>),
    Write(Seq<char>),
    Append(Seq<char>),
    MissingPath,
    InvalidNumber,
}

impl HistoryRequest {
    pub open spec fn view(&self) -> HistoryRequestView {
        match self {
            HistoryRequest::List(n) => HistoryRequestView::List(*n),
            HistoryRequest::Read(p) => HistoryRequestView::Read(p@),
            HistoryRequest::Write(p) => HistoryRequestView::Write(p@),
            HistoryRequest::Append(p) => HistoryRequestView::Append(p@),
            HistoryRequest::MissingPath => HistoryRequestView::MissingPath,
            HistoryRequest::InvalidNumber => HistoryRequestView::InvalidNumber,
        }
    }
}

/// The request that the arguments of `history` make.
pub fn history_request(args: &Vec<String>) -> (req: HistoryRequest)
    ensures
        req@ == history_request_spec(views(args@)),
{
    if args.len() == 0 {
        return HistoryRequest::List(None);
    }
    let first = args[0].as_str();
    let r = str_is(first, "-r");
    let w = str_is(first, "-w");
    let a = str_is(first, "-a");
    if r || w || a {
        if args.len() < 2 {
            HistoryRequest::MissingPath
        } else if r {
            HistoryRequest::Read(args[1].clone())
        } else if w {
            HistoryRequest::Write(args[1].clone())
        } else {
            HistoryRequest::Append(args[1].clone())
        }
    } else {
        match parse_usize(first) {
            Some(n) => HistoryRequest::List(Some(n)),
            None => HistoryRequest::InvalidNumber,
        }
    }
}

/// The first line of a history file in rustyline's own format.
pub open spec fn history_header() -> Seq<char> {
    "#V2"@
}

/// The lines of `ls` that are not the header, each ended by a newline.
pub open spec fn without_header(ls: Seq<Seq<char>>) -> Seq<char>
    decreases ls.len(),
{
    if ls.len() == 0 {
        Seq::empty()
    } else if ls.last() == history_header() {
        without_header(ls.drop_last())
    } else {
        without_header(ls.drop_last()) + ls.last() + seq!['\n']
    }
}

/// A saved history file rewritten as plain lines: every line but the
/// format header, each ended by a newline.
pub fn strip_history_header(content: &str) -> (res: String)
    ensures
        res@ == without_header(lines(content@)),
{
    let ls = split_lines(content);
    let mut res = String::new();
    let mut i: usize = 0;
    while i < ls.len()
        invariant
            i <= ls@.len(),
            views(ls@) == lines(content@),
            res@ == without_header(views(ls@).take(i as int)),
        decreases ls@.len() - i,
    {
        assert(views(ls@).take(i + 1).drop_last() =~= views(ls@).take(i as int));
        if !str_is(ls[i].as_str(), "#V2") {
            res.append(ls[i].as_str());
            push_char(&mut res, '\n');
        }
        i = i + 1;
    }
    assert(views(ls@).take(ls@.len() as int) =~= views(ls@));
    res
}

} // verus!
