//! Character-level helpers shared by the tokenizer, the builtins and the
//! completion logic: whitespace, conversions between `String` and `Vec<char>`,
//! joining, decimal numbers and line splitting.
use vstd::prelude::*;

verus! {

/// The views of a sequence of strings.
pub open spec fn views(v: Seq<String>) -> Seq<Seq<char>> {
    v.map_values(|s: String| s@)
}

/// The Unicode `White_Space` property, which is what `char::is_whitespace` tests.
pub open spec fn is_space_char(c: char) -> bool {
    let n = c as u32;
    ||| 0x09 <= n <= 0x0d
    ||| n == 0x20
    ||| n == 0x85
    ||| n == 0xa0
    ||| n == 0x1680
    ||| 0x2000 <= n <= 0x200a
    ||| n == 0x2028
    ||| n == 0x2029
    ||| n == 0x202f
    ||| n == 0x205f
    ||| n == 0x3000
}

/// Whether `c` is Unicode white space.
pub fn is_whitespace(c: char) -> (res: bool)
    ensures
        res == is_space_char(c),
{
    let n = c as u32;
    (0x09 <= n && n <= 0x0d) || n == 0x20 || n == 0x85 || n == 0xa0 || n == 0x1680 || (0x2000
        <= n && n <= 0x200a) || n == 0x2028 || n == 0x2029 || n == 0x202f || n == 0x205f || n
        == 0x3000
}

/// `String::push` from std: appends one character.
#[verifier::external_body]
pub fn push_char(s: &mut String, c: char)
    ensures
        final(s)@ == old(s)@.push(c),
{
    s.push(c)
}

/// The characters of `s`, in order.
pub fn chars_of(s: &str) -> (res: Vec<char>)
    ensures
        res@ == s@,
{
    let mut res: Vec<char> = Vec::new();
    for c in it: s.chars()
        invariant
            res@ == it.seq().take(it.index()),
            it.seq() == s@,
    {
        res.push(c);
    }
    res
}

/// A string made of the characters `cs[from..to]`.
pub fn string_from_chars(cs: &Vec<char>, from: usize, to: usize) -> (res: String)
    requires
        from <= to <= cs.len(),
    ensures
        res@ == cs@.subrange(from as int, to as int),
{
    let mut res = String::new();
    let mut i = from;
    while i < to
        invariant
            from <= i <= to <= cs.len(),
            res@ == cs@.subrange(from as int, i as int),
        decreases to - i,
    {
        push_char(&mut res, cs[i]);
        i = i + 1;
        assert(res@ =~= cs@.subrange(from as int, i as int));
    }
    res
}

/// Whether the string `s` is exactly the literal `lit`.
pub fn str_is(s: &str, lit: &str) -> (res: bool)
    ensures
        res == (s@ == lit@),
{
    let a = String::from_str(s);
    let b = String::from_str(lit);
    a == b
}

/// The sequences of `ws` separated by `sep`.
pub open spec fn join(ws: Seq<Seq<char>>, sep: Seq<char>) -> Seq<char>
    decreases ws.len(),
{
    if ws.len() == 0 {
        Seq::empty()
    } else if ws.len() == 1 {
        ws[0]
    } else {
        join(ws.drop_last(), sep) + sep + ws.last()
    }
}

/// The strings of `ws[from..]` separated by `sep`, as `[T]::join` gives them.
pub fn join_strings(ws: &Vec<String>, from: usize, sep: &str) -> (res: String)
    requires
        from <= ws.len(),
    ensures
        res@ == join(views(ws@.subrange(from as int, ws@.len() as int)), sep@),
{
    let mut res = String::new();
    let mut i = from;
    while i < ws.len()
        invariant
            from <= i <= ws.len(),
            res@ == join(views(ws@.subrange(from as int, i as int)), sep@),
        decreases ws.len() - i,
    {
        let ghost before = views(ws@.subrange(from as int, i as int));
        if i > from {
            res.append(sep);
        }
        res.append(ws[i].as_str());
        i = i + 1;
        assert(views(ws@.subrange(from as int, i as int)).drop_last() =~= before);
    }
    res
}

/// The decimal digit for `d < 10`.
pub open spec fn digit_char(d: nat) -> char {
    (d + 48) as char
}

/// The decimal notation of `n`, without leading zeros.
pub open spec fn decimal(n: nat) -> Seq<char>
    decreases n,
{
    if n < 10 {
        seq![digit_char(n)]
    } else {
        decimal(n / 10).push(digit_char(n % 10))
    }
}

/// Appends the decimal notation of `n` to `s`, as `{}` formats an integer.
pub fn push_decimal(s: &mut String, n: usize)
    ensures
        final(s)@ == old(s)@ + decimal(n as nat),
    decreases n,
{
    if n >= 10 {
        push_decimal(s, n / 10);
    }
    let d = (n % 10) as u8;
    let c = (48u8 + d) as char;
    push_char(s, c);
    assert(final(s)@ =~= old(s)@ + decimal(n as nat));
}

/// The lines of `s` read so far, and the line being read.
pub open spec fn lines_run(s: Seq<char>) -> (Seq<Seq<char>>, Seq<char>)
    decreases s.len(),
{
    if s.len() == 0 {
        (Seq::empty(), Seq::empty())
    } else {
        let (done, cur) = lines_run(s.drop_last());
        if s.last() == '\n' {
            (done.push(strip_cr(cur)), Seq::empty())
        } else {
            (done, cur.push(s.last()))
        }
    }
}

/// A line ended by `\r\n` loses the `\r`.
pub open spec fn strip_cr(line: Seq<char>) -> Seq<char> {
    if line.len() > 0 && line.last() == '\r' {
        line.drop_last()
    } else {
        line
    }
}

/// The lines of `s`, as `str::lines` gives them: split at `\n` or `\r\n`,
/// the last line ending being optional.
pub open spec fn lines(s: Seq<char>) -> Seq<Seq<char>> {
    let (done, cur) = lines_run(s);
    if cur.len() > 0 {
        done.push(cur)
    } else {
        done
    }
}

/// The lines of `s`.
pub fn split_lines(s: &str) -> (res: Vec<String>)
    ensures
        views(res@) == lines(s@),
{
    let cs = chars_of(s);
    let mut res: Vec<String> = Vec::new();
    let mut start: usize = 0;
    let mut i: usize = 0;
    assert(cs@.take(0) =~= Seq::<char>::empty());
    assert(views(res@) =~= Seq::<Seq<char>>::empty());
    while i < cs.len()
        invariant
            start <= i <= cs@.len(),
            lines_run(cs@.take(i as int)) == (views(res@), cs@.subrange(start as int, i as int)),
        decreases cs@.len() - i,
    {
        assert(cs@.take(i + 1).drop_last() =~= cs@.take(i as int));
        if cs[i] == '\n' {
            let mut end = i;
            if end > start && cs[end - 1] == '\r' {
                end = end - 1;
            }
            let line = string_from_chars(&cs, start, end);
            let ghost before = res@;
            res.push(line);
            assert(views(res@) =~= views(before).push(line@));
            assert(line@ =~= strip_cr(cs@.subrange(start as int, i as int)));
            start = i + 1;
        }
        i = i + 1;
        assert(cs@.subrange(start as int, i as int) =~= (if start == i {
            Seq::<char>::empty()
        } else {
            cs@.subrange(start as int, i - 1).push(cs@[i - 1])
        }));
    }
    assert(cs@.take(cs@.len() as int) =~= cs@);
    if start < cs.len() {
        let line = string_from_chars(&cs, start, cs.len());
        let ghost before = res@;
        res.push(line);
        assert(views(res@) =~= views(before).push(line@));
    }
    res
}

/// `s` without its trailing white space.
pub open spec fn trim_end(s: Seq<char>) -> Seq<char>
    decreases s.len(),
{
    if s.len() > 0 && is_space_char(s.last()) {
        trim_end(s.drop_last())
    } else {
        s
    }
}

/// `s` without its trailing white space, as `str::trim_end` gives it.
pub fn trim_end_string(s: &str) -> (res: String)
    ensures
        res@ == trim_end(s@),
{
    let cs = chars_of(s);
    let mut j = cs.len();
    assert(cs@.take(j as int) =~= cs@);
    while j > 0 && is_whitespace(cs[j - 1])
        invariant
            j <= cs@.len(),
            trim_end(cs@) == trim_end(cs@.take(j as int)),
        decreases j,
    {
        assert(cs@.take(j as int).drop_last() =~= cs@.take(j - 1));
        j = j - 1;
    }
    string_from_chars(&cs, 0, j)
}

/// Whether `c` occurs in `s`.
pub fn contains_char(s: &str, c: char) -> (res: bool)
    ensures
        res == s@.contains(c),
{
    let cs = chars_of(s);
    let mut i: usize = 0;
    while i < cs.len()
        invariant
            i <= cs@.len(),
            cs@ == s@,
            forall|k: int| 0 <= k < i ==> cs@[k] != c,
        decreases cs@.len() - i,
    {
        if cs[i] == c {
            assert(s@[i as int] == c);
            return true;
        }
        i = i + 1;
    }
    false
}

/// Whether `s` ends with `c`.
pub fn ends_with_char(s: &str, c: char) -> (res: bool)
    ensures
        res == (s@.len() > 0 && s@.last() == c),
{
    let cs = chars_of(s);
    cs.len() > 0 && cs[cs.len() - 1] == c
}

/// An ASCII decimal digit.
pub open spec fn is_digit(c: char) -> bool {
    '0' <= c <= '9'
}

/// The value of a string of decimal digits.
pub open spec fn digits_value(s: Seq<char>) -> nat
    decreases s.len(),
{
    if s.len() == 0 {
        0
    } else {
        digits_value(s.drop_last()) * 10 + ((s.last() as u32) - 48) as nat
    }
}

/// `s` without a leading `+`.
pub open spec fn unsigned_part(s: Seq<char>) -> Seq<char> {
    if s.len() > 0 && s[0] == '+' {
        s.drop_first()
    } else {
        s
    }
}

/// Every character of `s` is a decimal digit.
pub open spec fn all_digits(s: Seq<char>) -> bool {
    forall|i: int| 0 <= i < s.len() ==> is_digit(#[trigger] s[i])
}

/// What `str::parse::<usize>` gives: an optional `+` followed by at least
/// one decimal digit, whose value fits in a `usize`.
pub open spec fn parse_usize_spec(s: Seq<char>) -> Option<usize> {
    let ds = unsigned_part(s);
    if ds.len() > 0 && all_digits(ds) && digits_value(ds) <= usize::MAX {
        Some(digits_value(ds) as usize)
    } else {
        None
    }
}

proof fn lemma_digits_value_grows(s: Seq<char>, k: int)
    requires
        0 <= k <= s.len(),
        forall|i: int| 0 <= i < s.len() ==> is_digit(#[trigger] s[i]),
    ensures
        digits_value(s.take(k)) <= digits_value(s),
    decreases s.len() - k,
{
    if k < s.len() {
        lemma_digits_value_grows(s, k + 1);
        assert(s.take(k + 1).drop_last() =~= s.take(k));
        assert(is_digit(s[k]));
    } else {
        assert(s.take(k) =~= s);
    }
}

/// Reads a decimal number as `str::parse::<usize>` does.
pub fn parse_usize(s: &str) -> (res: Option<usize>)
    ensures
        res == parse_usize_spec(s@),
{
    let cs = chars_of(s);
    let mut i: usize = 0;
    if cs.len() > 0 && cs[0] == '+' {
        i = 1;
    }
    let ghost ds = unsigned_part(s@);
    let ghost off = i as int;
    assert(ds =~= cs@.skip(off));
    assert(forall|j: int| 0 <= j < ds.len() ==> #[trigger] ds[j] == cs@[j + off]);
    if i == cs.len() {
        return None;
    }
    let mut value: usize = 0;
    assert(ds.take(0) =~= Seq::<char>::empty());
    while i < cs.len()
        invariant
            0 <= off <= i <= cs@.len(),
            ds == unsigned_part(s@),
            ds.len() == cs@.len() - off,
            forall|j: int| 0 <= j < ds.len() ==> #[trigger] ds[j] == cs@[j + off],
            value as nat == digits_value(ds.take(i - off)),
            forall|k: int| 0 <= k < i - off ==> is_digit(#[trigger] ds[k]),
        decreases cs@.len() - i,
    {
        let c = cs[i];
        assert(ds[i - off] == c);
        if c < '0' || c > '9' {
            assert(!is_digit(ds[i - off]));
            assert(!all_digits(ds));
            return None;
        }
        assert(ds.take(i - off + 1).drop_last() =~= ds.take(i - off));
        let d = (c as u32 - 48) as usize;
        let ghost t = ds.take(i - off + 1);
        assert(t.last() == c);
        assert(digits_value(t) == digits_value(ds.take(i - off)) * 10 + d);
        let next = match value.checked_mul(10) {
            Some(m) => m.checked_add(d),
            None => None,
        };
        match next {
            Some(v) => {
                value = v;
            },
            None => {
                proof {
                    assert(value * 10 + d > usize::MAX) by (nonlinear_arith)
                        requires
                            next.is_none(),
                            next == (match value.checked_mul(10) {
                                Some(m) => m.checked_add(d),
                                None => None,
                            }),
                    {}
                    if all_digits(ds) {
                        lemma_digits_value_grows(ds, i - off + 1);
                        assert(digits_value(ds) > usize::MAX);
                    }
                }
                return None;
            },
        }
        i = i + 1;
    }
    assert(ds.take(i - off) =~= ds);
    Some(value)
}

/// Reading text without a newline only extends the line being read.
proof fn lemma_lines_run_no_newline(p: Seq<char>, b: Seq<char>)
    requires
        !b.contains('\n'),
    ensures
        lines_run(p + b) == (lines_run(p).0, lines_run(p).1 + b),
    decreases b.len(),
{
    if b.len() == 0 {
        assert(p + b =~= p);
        assert(lines_run(p).1 + b =~= lines_run(p).1);
    } else {
        let c = b.last();
        assert(b.drop_last().len() < b.len());
        assert(!b.drop_last().contains('\n')) by {
            if b.drop_last().contains('\n') {
                let i = choose|i: int| 0 <= i < b.drop_last().len() && b.drop_last()[i] == '\n';
                assert(b[i] == '\n');
            }
        }
        lemma_lines_run_no_newline(p, b.drop_last());
        assert((p + b).drop_last() =~= p + b.drop_last());
        assert((p + b).last() == c);
        assert(c != '\n') by {
            if c == '\n' {
                assert(b[b.len() - 1] == '\n');
            }
        }
        assert(lines_run(p).1 + b =~= (lines_run(p).1 + b.drop_last()).push(c));
    }
}

/// Text split into lines: a line without a newline is one line; a line
/// ended by `\n` is that line without a `\r` before the newline; and two
/// lines joined by a newline give both.
pub proof fn lemma_lines_split_at_newline(a: Seq<char>, b: Seq<char>)
    requires
        !a.contains('\n'),
        !b.contains('\n'),
    ensures
        a.len() > 0 ==> lines(a) == seq![a],
        lines(a.push('\n')) == seq![strip_cr(a)],
        b.len() > 0 ==> lines(a.push('\n') + b) == seq![strip_cr(a), b],
{
    let e = Seq::<char>::empty();
    lemma_lines_run_no_newline(e, a);
    assert(e + a =~= a);
    assert(lines_run(e) == (Seq::<Seq<char>>::empty(), e));
    assert(lines_run(a) == (Seq::<Seq<char>>::empty(), a));
    let an = a.push('\n');
    assert(an.drop_last() =~= a);
    assert(an.last() == '\n');
    assert(lines_run(an) == (seq![strip_cr(a)], e)) by {
        assert(Seq::<Seq<char>>::empty().push(strip_cr(a)) =~= seq![strip_cr(a)]);
    }
    lemma_lines_run_no_newline(an, b);
    assert(e + b =~= b);
    assert(seq![strip_cr(a)].push(b) =~= seq![strip_cr(a), b]);
    assert(seq![a] =~= Seq::<Seq<char>>::empty().push(a));
}

/// Trailing white space is what `trim_end` takes off, and nothing more.
pub proof fn lemma_trim_end_takes_trailing_space(a: Seq<char>, sp: Seq<char>)
    requires
        a.len() == 0 || !is_space_char(a.last()),
        forall|i: int| 0 <= i < sp.len() ==> is_space_char(#[trigger] sp[i]),
    ensures
        trim_end(a + sp) == a,
    decreases sp.len(),
{
    if sp.len() == 0 {
        assert(a + sp =~= a);
    } else {
        assert((a + sp).drop_last() =~= a + sp.drop_last());
        assert((a + sp).last() == sp[sp.len() - 1]);
        lemma_trim_end_takes_trailing_space(a, sp.drop_last());
    }
}

proof fn lemma_decimal_digits(n: nat)
    ensures
        decimal(n).len() > 0,
        all_digits(decimal(n)),
        digits_value(decimal(n)) == n,
    decreases n,
{
    if n < 10 {
        assert(decimal(n).drop_last() =~= Seq::<char>::empty());
        assert(decimal(n).last() == digit_char(n));
        assert((digit_char(n) as u32) == n + 48);
        assert(digits_value(Seq::<char>::empty()) == 0);
        assert(digits_value(decimal(n)) == digits_value(decimal(n).drop_last()) * 10 + n);
    } else {
        lemma_decimal_digits(n / 10);
        let d = decimal(n);
        assert(d.drop_last() =~= decimal(n / 10));
        assert(d.last() == digit_char(n % 10));
        assert((digit_char(n % 10) as u32) == n % 10 + 48);
        assert((n / 10) * 10 + n % 10 == n) by (nonlinear_arith);
        assert(digits_value(d) == digits_value(decimal(n / 10)) * 10 + n % 10);
        assert forall|i: int| 0 <= i < d.len() implies is_digit(#[trigger] d[i]) by {
            if i < d.len() - 1 {
                assert(d[i] == decimal(n / 10)[i]);
            }
        }
    }
}

/// Reading back the decimal notation of a number gives the number, and a
/// word holding a character that is neither a digit nor `+` is no number.
pub proof fn lemma_decimal_parses_back(n: usize, s: Seq<char>)
    ensures
        parse_usize_spec(decimal(n as nat)) == Some(n),
        (exists|i: int| 0 <= i < s.len() && !is_digit(s[i]) && s[i] != '+')
            ==> parse_usize_spec(s) is None,
{
    lemma_decimal_digits(n as nat);
    assert(!is_digit('+'));
    if exists|i: int| 0 <= i < s.len() && !is_digit(s[i]) && s[i] != '+' {
        let i = choose|i: int| 0 <= i < s.len() && !is_digit(s[i]) && s[i] != '+';
        let ds = unsigned_part(s);
        if s.len() > 0 && s[0] == '+' {
            assert(i > 0);
            assert(ds[i - 1] == s[i]);
        } else {
            assert(ds[i] == s[i]);
        }
    }
}

} // verus!
