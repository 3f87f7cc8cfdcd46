//! Splitting a command line into words, with the shell's quoting rules:
//! single quotes keep everything literally, double quotes keep everything but
//! let a backslash escape `"` and `\`, and outside quotes a backslash makes
//! the next character literal.  Words are separated by unquoted white space.
use vstd::prelude::*;
use crate::text::{is_space_char, is_whitespace, push_char, views};

verus! {

/// Where the lexer stands after reading a prefix of the line.
pub struct LexState {
    /// Words completed so far.
    pub tokens: Seq<Seq<char>>,
    /// The word being read.
    pub buf: Seq<char>,
    /// Inside single quotes.
    pub single: bool,
    /// Inside double quotes.
    pub double: bool,
    /// The previous character was an escaping backslash.
    pub escaped: bool,
}

pub open spec fn lex_start() -> LexState {
    LexState { tokens: Seq::empty(), buf: Seq::empty(), single: false, double: false, escaped: false }
}

/// How one character moves the lexer.
pub open spec fn lex_step(st: LexState, c: char) -> LexState {
    if c == '\\' {
        if st.single {
            LexState { buf: st.buf.push(c), ..st }
        } else if st.double {
            if st.escaped {
                LexState { buf: st.buf.push(c), escaped: false, ..st }
            } else {
                LexState { escaped: true, ..st }
            }
        } else if st.escaped {
            LexState { buf: st.buf.push(c), ..st }
        } else {
            LexState { escaped: true, ..st }
        }
    } else if c == '\'' {
        if st.double {
            if st.escaped {
                LexState { buf: st.buf.push('\\').push(c), escaped: false, ..st }
            } else {
                LexState { buf: st.buf.push(c), ..st }
            }
        } else if st.escaped {
            LexState { buf: st.buf.push(c), escaped: false, ..st }
        } else {
            LexState { single: !st.single, ..st }
        }
    } else if c == '"' {
        if st.single {
            LexState { buf: st.buf.push(c), ..st }
        } else if st.double {
            if st.escaped {
                LexState { buf: st.buf.push(c), escaped: false, ..st }
            } else {
                LexState { double: false, ..st }
            }
        } else if st.escaped {
            LexState { buf: st.buf.push(c), escaped: false, ..st }
        } else {
            LexState { double: true, ..st }
        }
    } else if is_space_char(c) {
        if st.single {
            LexState { buf: st.buf.push(c), ..st }
        } else if st.double {
            if st.escaped {
                LexState { buf: st.buf.push('\\').push(c), escaped: false, ..st }
            } else {
                LexState { buf: st.buf.push(c), ..st }
            }
        } else if st.escaped {
            LexState { buf: st.buf.push(c), escaped: false, ..st }
        } else if st.buf.len() > 0 {
            LexState { tokens: st.tokens.push(st.buf), buf: Seq::empty(), ..st }
        } else {
            st
        }
    } else if st.double && st.escaped {
        LexState { buf: st.buf.push('\\').push(c), escaped: false, ..st }
    } else {
        LexState { buf: st.buf.push(c), escaped: false, ..st }
    }
}

/// The lexer after reading all of `s`.
pub open spec fn lex_run(s: Seq<char>) -> LexState
    decreases s.len(),
{
    if s.len() == 0 {
        lex_start()
    } else {
        lex_step(lex_run(s.drop_last()), s.last())
    }
}

/// The words of the line `s`: those completed, and the one still being read
/// when it is not empty.
pub open spec fn tokenize(s: Seq<char>) -> Seq<Seq<char>> {
    let st = lex_run(s);
    if st.buf.len() > 0 {
        st.tokens.push(st.buf)
    } else {
        st.tokens
    }
}

/// Splits a command line into its words.
pub fn read_user_input(buffer: &str) -> (result: Vec<String>)
    ensures
        views(result@) == tokenize(buffer@),
{
    let mut result: Vec<String> = Vec::new();
    let mut open_single_quote = false;
    let mut open_double_quote = false;
    let mut escaped = false;
    let mut arg_buffer = String::new();
    proof {
        assert(views(result@) =~= Seq::<Seq<char>>::empty());
        assert(forall|s: Seq<char>| #[trigger] s.take(0) =~= Seq::<char>::empty());
    }
    for c in it: buffer.chars()
        invariant
            it.seq() == buffer@,
            lex_run(it.seq().take(it.index())) == (LexState {
                tokens: views(result@),
                buf: arg_buffer@,
                single: open_single_quote,
                double: open_double_quote,
                escaped: escaped,
            }),
    {
        let ghost pre = it.seq().take(it.index());
        let ghost next = it.seq().take(it.index() + 1);
        assert(next.drop_last() =~= pre);
        assert(next.last() == c);
        let ghost st = lex_run(pre);
        if c == '\\' {
            if open_single_quote {
                push_char(&mut arg_buffer, c);
            } else if open_double_quote {
                if escaped {
                    push_char(&mut arg_buffer, c);
                    escaped = false;
                } else {
                    escaped = true;
                }
            } else if escaped {
                push_char(&mut arg_buffer, c);
            } else {
                escaped = true;
            }
        } else if c == '\'' {
            if open_double_quote {
                if escaped {
                    push_char(&mut arg_buffer, '\\');
                    escaped = false;
                }
                push_char(&mut arg_buffer, c);
            } else if escaped {
                push_char(&mut arg_buffer, c);
                escaped = false;
            } else {
                open_single_quote = !open_single_quote;
            }
        } else if c == '"' {
            if open_single_quote {
                push_char(&mut arg_buffer, c);
            } else if open_double_quote {
                if escaped {
                    push_char(&mut arg_buffer, c);
                    escaped = false;
                } else {
                    open_double_quote = false;
                }
            } else if escaped {
                push_char(&mut arg_buffer, c);
                escaped = false;
            } else {
                open_double_quote = !open_double_quote;
            }
        } else if is_whitespace(c) {
            if open_single_quote {
                push_char(&mut arg_buffer, c);
            } else if open_double_quote {
                if escaped {
                    push_char(&mut arg_buffer, '\\');
                    escaped = false;
                }
                push_char(&mut arg_buffer, c);
            } else if escaped {
                push_char(&mut arg_buffer, c);
                escaped = false;
            } else if arg_buffer.as_str().unicode_len() > 0 {
                let ghost before = result@;
                result.push(arg_buffer.clone());
                assert(views(result@) =~= views(before).push(st.buf));
                arg_buffer = String::new();
            }
        } else {
            if open_double_quote && escaped {
                push_char(&mut arg_buffer, '\\');
            }
            push_char(&mut arg_buffer, c);
            escaped = false;
        }
    }
    proof {
        assert(buffer@.take(buffer@.len() as int) =~= buffer@);
    }
    if arg_buffer.as_str().unicode_len() > 0 {
        let ghost before = result@;
        result.push(arg_buffer);
        assert(views(result@) =~= views(before).push(lex_run(buffer@).buf));
    }
    result
}

/// Whitespace splitting after reading `s`: the words completed and the one
/// being read.
pub open spec fn split_run(s: Seq<char>) -> (Seq<Seq<char>>, Seq<char>)
    decreases s.len(),
{
    if s.len() == 0 {
        (Seq::empty(), Seq::empty())
    } else {
        let (words, cur) = split_run(s.drop_last());
        if !is_space_char(s.last()) {
            (words, cur.push(s.last()))
        } else if cur.len() > 0 {
            (words.push(cur), Seq::empty())
        } else {
            (words, cur)
        }
    }
}

/// The maximal runs of non-white-space characters of `s`, in order.
pub open spec fn split_whitespace(s: Seq<char>) -> Seq<Seq<char>> {
    let (words, cur) = split_run(s);
    if cur.len() > 0 {
        words.push(cur)
    } else {
        words
    }
}

/// No quote and no backslash in `s`.
pub open spec fn is_plain(s: Seq<char>) -> bool {
    forall|i: int| 0 <= i < s.len() ==> s[i] != '\\' && s[i] != '\'' && s[i] != '"'
}

proof fn lemma_lex_tokens_nonempty(s: Seq<char>)
    ensures
        forall|i: int|
            0 <= i < lex_run(s).tokens.len() ==> #[trigger] lex_run(s).tokens[i].len() > 0,
    decreases s.len(),
{
    if s.len() > 0 {
        let p = s.drop_last();
        lemma_lex_tokens_nonempty(p);
        let st = lex_run(p);
        assert forall|i: int|
            0 <= i < lex_run(s).tokens.len() implies #[trigger] lex_run(s).tokens[i].len() > 0 by {
            if i < st.tokens.len() {
                assert(st.tokens[i].len() > 0);
            }
        }
    }
}

/// Every word of a line is non-empty: quotes that enclose nothing give no word.
pub proof fn lemma_words_nonempty(s: Seq<char>)
    ensures
        forall|i: int| 0 <= i < tokenize(s).len() ==> #[trigger] tokenize(s)[i].len() > 0,
{
    lemma_lex_tokens_nonempty(s);
}

proof fn lemma_lex_plain(s: Seq<char>)
    requires
        is_plain(s),
    ensures
        lex_run(s) == (LexState {
            tokens: split_run(s).0,
            buf: split_run(s).1,
            single: false,
            double: false,
            escaped: false,
        }),
    decreases s.len(),
{
    if s.len() > 0 {
        assert(is_plain(s.drop_last()));
        lemma_lex_plain(s.drop_last());
        assert(s.last() == s[s.len() - 1]);
    }
}

/// A line without quotes or backslashes splits exactly at its white space.
pub proof fn lemma_plain_line_splits_at_whitespace(s: Seq<char>)
    requires
        is_plain(s),
    ensures
        tokenize(s) == split_whitespace(s),
{
    lemma_lex_plain(s);
}

proof fn lemma_lex_in_single_quotes(w: Seq<char>, k: int)
    requires
        0 <= k <= w.len(),
        forall|i: int| 0 <= i < w.len() ==> w[i] != '\'',
    ensures
        lex_run(seq!['\''] + w.take(k)) == (LexState {
            tokens: Seq::empty(),
            buf: w.take(k),
            single: true,
            double: false,
            escaped: false,
        }),
    decreases k,
{
    let s = seq!['\''] + w.take(k);
    if k == 0 {
        assert(s.drop_last() =~= Seq::<char>::empty());
        assert(w.take(0) =~= Seq::<char>::empty());
        assert(s.last() == '\'');
        assert(lex_run(s.drop_last()) == lex_start());
    } else {
        assert(s.last() == w[k - 1]);
        lemma_lex_in_single_quotes(w, k - 1);
        assert(s.drop_last() =~= seq!['\''] + w.take(k - 1));
        assert(w.take(k) =~= w.take(k - 1).push(w[k - 1]));
    }
}

/// Single quotes keep their contents literally, as one word.
pub proof fn lemma_single_quotes_literal(w: Seq<char>)
    requires
        w.len() > 0,
        forall|i: int| 0 <= i < w.len() ==> w[i] != '\'',
    ensures
        tokenize(seq!['\''] + w + seq!['\'']) == seq![w],
{
    let s = seq!['\''] + w + seq!['\''];
    lemma_lex_in_single_quotes(w, w.len() as int);
    assert(w.take(w.len() as int) =~= w);
    assert(s.drop_last() =~= seq!['\''] + w.take(w.len() as int));
    assert(seq![w] =~= Seq::<Seq<char>>::empty().push(w));
}

proof fn lemma_lex_in_double_quotes(w: Seq<char>, k: int)
    requires
        0 <= k <= w.len(),
        forall|i: int| 0 <= i < w.len() ==> w[i] != '"' && w[i] != '\\',
    ensures
        lex_run(seq!['"'] + w.take(k)) == (LexState {
            tokens: Seq::empty(),
            buf: w.take(k),
            single: false,
            double: true,
            escaped: false,
        }),
    decreases k,
{
    let s = seq!['"'] + w.take(k);
    if k == 0 {
        assert(s.drop_last() =~= Seq::<char>::empty());
        assert(w.take(0) =~= Seq::<char>::empty());
        assert(s.last() == '"');
        assert(lex_run(s.drop_last()) == lex_start());
    } else {
        assert(s.last() == w[k - 1]);
        lemma_lex_in_double_quotes(w, k - 1);
        assert(s.drop_last() =~= seq!['"'] + w.take(k - 1));
        assert(w.take(k) =~= w.take(k - 1).push(w[k - 1]));
    }
}

/// Double quotes around text without `"` or `\\` keep it literally, as one word.
pub proof fn lemma_double_quotes_literal(w: Seq<char>)
    requires
        w.len() > 0,
        forall|i: int| 0 <= i < w.len() ==> w[i] != '"' && w[i] != '\\',
    ensures
        tokenize(seq!['"'] + w + seq!['"']) == seq![w],
{
    let s = seq!['"'] + w + seq!['"'];
    lemma_lex_in_double_quotes(w, w.len() as int);
    assert(w.take(w.len() as int) =~= w);
    assert(s.drop_last() =~= seq!['"'] + w.take(w.len() as int));
    assert(seq![w] =~= Seq::<Seq<char>>::empty().push(w));
}

/// The lexer after reading `t`, starting from `st`.
pub open spec fn lex_from(st: LexState, t: Seq<char>) -> LexState
    decreases t.len(),
{
    if t.len() == 0 {
        st
    } else {
        lex_step(lex_from(st, t.drop_last()), t.last())
    }
}

/// Reading `s` and then `t` is reading `s + t`.
proof fn lemma_lex_concat(s: Seq<char>, t: Seq<char>)
    ensures
        lex_run(s + t) == lex_from(lex_run(s), t),
    decreases t.len(),
{
    if t.len() == 0 {
        assert(s + t =~= s);
    } else {
        lemma_lex_concat(s, t.drop_last());
        assert((s + t).drop_last() =~= s + t.drop_last());
        assert((s + t).last() == t.last());
    }
}

/// Text without `"` or `\\` inside double quotes, or without any quote,
/// backslash or white space outside quotes, goes into the word being read.
proof fn lemma_lex_literal_run(st: LexState, w: Seq<char>)
    requires
        !st.single,
        !st.escaped,
        forall|i: int|
            0 <= i < w.len() ==> w[i] != '"' && w[i] != '\\' && (st.double || (w[i] != '\''
                && !is_space_char(w[i]))),
    ensures
        lex_from(st, w) == (LexState { buf: st.buf + w, ..st }),
    decreases w.len(),
{
    if w.len() == 0 {
        assert(st.buf + w =~= st.buf);
    } else {
        lemma_lex_literal_run(st, w.drop_last());
        assert(st.buf + w =~= (st.buf + w.drop_last()).push(w.last()));
        assert(w.last() == w[w.len() - 1]);
    }
}

/// The lexer after an opening double quote and the text `w`.
proof fn lemma_lex_open_quote(w: Seq<char>)
    requires
        forall|i: int| 0 <= i < w.len() ==> w[i] != '"' && w[i] != '\\',
    ensures
        lex_run(seq!['"'] + w) == (LexState {
            tokens: Seq::empty(),
            buf: w,
            single: false,
            double: true,
            escaped: false,
        }),
{
    let q = seq!['"'];
    assert(q.drop_last() =~= Seq::<char>::empty());
    assert(q.last() == '"');
    assert(lex_run(q.drop_last()) == lex_start());
    assert(lex_run(q).double);
    lemma_lex_concat(q, w);
    lemma_lex_literal_run(lex_run(q), w);
    assert(Seq::<char>::empty() + w =~= w);
}

/// Quoted parts that touch make one word: `"w1""w2"` is the single word
/// `w1w2`; a closing quote does not end the word.
pub proof fn lemma_adjacent_quotes_join(w1: Seq<char>, w2: Seq<char>)
    requires
        w1.len() + w2.len() > 0,
        forall|i: int| 0 <= i < w1.len() ==> w1[i] != '"' && w1[i] != '\\',
        forall|i: int| 0 <= i < w2.len() ==> w2[i] != '"' && w2[i] != '\\',
    ensures
        tokenize(seq!['"'] + w1 + seq!['"', '"'] + w2 + seq!['"']) == seq![w1 + w2],
{
    let s1 = seq!['"'] + w1;
    lemma_lex_open_quote(w1);
    let s2 = s1.push('"');
    assert(s2.drop_last() =~= s1);
    assert(s2.last() == '"');
    assert(lex_run(s2) == (LexState {
        tokens: Seq::empty(),
        buf: w1,
        single: false,
        double: false,
        escaped: false,
    }));
    let s3 = s2.push('"');
    assert(s3.drop_last() =~= s2);
    assert(s3.last() == '"');
    assert(lex_run(s3) == (LexState {
        tokens: Seq::empty(),
        buf: w1,
        single: false,
        double: true,
        escaped: false,
    }));
    lemma_lex_concat(s3, w2);
    lemma_lex_literal_run(lex_run(s3), w2);
    let s4 = s3 + w2;
    let s5 = s4.push('"');
    assert(s5.drop_last() =~= s4);
    assert(s5.last() == '"');
    assert(s5 =~= seq!['"'] + w1 + seq!['"', '"'] + w2 + seq!['"']);
    assert(seq![w1 + w2] =~= Seq::<Seq<char>>::empty().push(w1 + w2));
}

/// A quoted part and the bare text right after it make one word: `"w"x`
/// is the single word `wx`.
pub proof fn lemma_quote_then_text_join(w: Seq<char>, x: Seq<char>)
    requires
        w.len() + x.len() > 0,
        forall|i: int| 0 <= i < w.len() ==> w[i] != '"' && w[i] != '\\',
        is_plain(x),
        forall|i: int| 0 <= i < x.len() ==> !is_space_char(#[trigger] x[i]),
    ensures
        tokenize(seq!['"'] + w + seq!['"'] + x) == seq![w + x],
{
    let s1 = seq!['"'] + w;
    lemma_lex_open_quote(w);
    let s2 = s1.push('"');
    assert(s2.drop_last() =~= s1);
    assert(s2.last() == '"');
    lemma_lex_concat(s2, x);
    lemma_lex_literal_run(lex_run(s2), x);
    assert(s2 + x =~= seq!['"'] + w + seq!['"'] + x);
    assert(seq![w + x] =~= Seq::<Seq<char>>::empty().push(w + x));
}

/// The lexer after reading text with no quote, backslash or white space.
proof fn lemma_lex_bare(a: Seq<char>)
    requires
        is_plain(a),
        forall|i: int| 0 <= i < a.len() ==> !is_space_char(#[trigger] a[i]),
    ensures
        lex_run(a) == (LexState {
            tokens: Seq::empty(),
            buf: a,
            single: false,
            double: false,
            escaped: false,
        }),
{
    let e = Seq::<char>::empty();
    assert(lex_run(e) == lex_start());
    lemma_lex_concat(e, a);
    assert(e + a =~= a);
    lemma_lex_literal_run(lex_start(), a);
    assert(e + a =~= a);
}

/// Outside quotes a backslash makes the next character part of the word,
/// whatever it is (a quote, white space or another character): `a\cb` is
/// the single word `acb`.
pub proof fn lemma_backslash_escapes_outside_quotes(a: Seq<char>, c: char, b: Seq<char>)
    requires
        c != '\\',
        is_plain(a),
        is_plain(b),
        forall|i: int| 0 <= i < a.len() ==> !is_space_char(#[trigger] a[i]),
        forall|i: int| 0 <= i < b.len() ==> !is_space_char(#[trigger] b[i]),
    ensures
        tokenize(a + seq!['\\', c] + b) == seq![a + seq![c] + b],
{
    lemma_lex_bare(a);
    let s1 = a.push('\\');
    assert(s1.drop_last() =~= a);
    assert(s1.last() == '\\');
    assert(lex_run(s1) == (LexState {
        tokens: Seq::empty(),
        buf: a,
        single: false,
        double: false,
        escaped: true,
    }));
    let s2 = s1.push(c);
    assert(s2.drop_last() =~= s1);
    assert(s2.last() == c);
    assert(lex_run(s2) == (LexState {
        tokens: Seq::empty(),
        buf: a.push(c),
        single: false,
        double: false,
        escaped: false,
    }));
    lemma_lex_concat(s2, b);
    lemma_lex_literal_run(lex_run(s2), b);
    assert(s2 + b =~= a + seq!['\\', c] + b);
    assert(a.push(c) + b =~= a + seq![c] + b);
    assert(seq![a + seq![c] + b] =~= Seq::<Seq<char>>::empty().push(a + seq![c] + b));
}

/// What a backslash and the character `c` after it give inside double
/// quotes: `c` alone for `"` and `\\`, both characters otherwise.
pub open spec fn quoted_escape(c: char) -> Seq<char> {
    if c == '"' || c == '\\' {
        seq![c]
    } else {
        seq!['\\', c]
    }
}

/// Inside double quotes a backslash escapes only `"` and `\\`; before any
/// other character it stays: `"w1\cw2"` is one word.
pub proof fn lemma_backslash_in_double_quotes(w1: Seq<char>, c: char, w2: Seq<char>)
    requires
        forall|i: int| 0 <= i < w1.len() ==> w1[i] != '"' && w1[i] != '\\',
        forall|i: int| 0 <= i < w2.len() ==> w2[i] != '"' && w2[i] != '\\',
    ensures
        tokenize(seq!['"'] + w1 + seq!['\\', c] + w2 + seq!['"']) == seq![
            w1 + quoted_escape(c) + w2,
        ],
{
    let s1 = seq!['"'] + w1;
    lemma_lex_open_quote(w1);
    let s2 = s1.push('\\');
    assert(s2.drop_last() =~= s1);
    assert(s2.last() == '\\');
    assert(lex_run(s2) == (LexState {
        tokens: Seq::empty(),
        buf: w1,
        single: false,
        double: true,
        escaped: true,
    }));
    let s3 = s2.push(c);
    assert(s3.drop_last() =~= s2);
    assert(s3.last() == c);
    let e = quoted_escape(c);
    if c == '"' || c == '\\' {
        assert(w1.push(c) =~= w1 + e);
    } else {
        assert(w1.push('\\').push(c) =~= w1 + e);
    }
    assert(lex_run(s3) == (LexState {
        tokens: Seq::empty(),
        buf: w1 + e,
        single: false,
        double: true,
        escaped: false,
    }));
    lemma_lex_concat(s3, w2);
    lemma_lex_literal_run(lex_run(s3), w2);
    let s4 = s3 + w2;
    let s5 = s4.push('"');
    assert(s5.drop_last() =~= s4);
    assert(s5.last() == '"');
    assert(s5 =~= seq!['"'] + w1 + seq!['\\', c] + w2 + seq!['"']);
    assert(seq![w1 + e + w2] =~= Seq::<Seq<char>>::empty().push(w1 + e + w2));
}

} // verus!
