//! Text model shared by the library: strings are viewed as sequences of
//! `char`, with the line, whitespace and UTF-8 length rules that the rest of
//! the crate relies on.

use vstd::prelude::*;

verus! {

// ---------------------------------------------------------------------------
// Whitespace
// ---------------------------------------------------------------------------

/// The Unicode `White_Space` property: what `char::is_whitespace`, `str::trim`
/// and the `\s` class of a Unicode regular expression all test.
pub open spec fn is_space(c: char) -> bool {
    let v = c as u32;
    ||| 0x09 <= v <= 0x0D
    ||| v == 0x20
    ||| v == 0x85
    ||| v == 0xA0
    ||| v == 0x1680
    ||| 0x2000 <= v <= 0x200A
    ||| v == 0x2028
    ||| v == 0x2029
    ||| v == 0x202F
    ||| v == 0x205F
    ||| v == 0x3000
}

pub fn is_space_char(c: char) -> (r: bool)
    ensures
        r == is_space(c),
{
    let v = c as u32;
    (0x09 <= v && v <= 0x0D) || v == 0x20 || v == 0x85 || v == 0xA0 || v == 0x1680 || (0x2000
        <= v && v <= 0x200A) || v == 0x2028 || v == 0x2029 || v == 0x202F || v == 0x205F || v
        == 0x3000
}

/// `s` with its leading whitespace removed.
pub open spec fn trim_start(s: Seq<char>) -> Seq<char>
    decreases s.len(),
{
    if s.len() > 0 && is_space(s[0]) {
        trim_start(s.drop_first())
    } else {
        s
    }
}

/// `s` with its trailing whitespace removed.
pub open spec fn trim_end(s: Seq<char>) -> Seq<char>
    decreases s.len(),
{
    if s.len() > 0 && is_space(s.last()) {
        trim_end(s.drop_last())
    } else {
        s
    }
}

/// `s` with leading and trailing whitespace removed, as `str::trim` does.
pub open spec fn trim(s: Seq<char>) -> Seq<char> {
    trim_end(trim_start(s))
}

/// A line is blank when nothing but whitespace is on it.
pub open spec fn is_blank(s: Seq<char>) -> bool {
    trim(s).len() == 0
}

/// Trimming never lengthens a text.
pub proof fn lemma_trim_len(s: Seq<char>)
    ensures
        trim_start(s).len() <= s.len(),
        trim_end(s).len() <= s.len(),
    decreases s.len(),
{
    if s.len() > 0 {
        lemma_trim_len(s.drop_first());
        lemma_trim_len(s.drop_last());
    }
}

/// Whatever holds of every character of `s` holds of every character of
/// `trim(s)`.
pub proof fn lemma_trim_keeps(s: Seq<char>, p: spec_fn(char) -> bool)
    requires
        forall|i: int| 0 <= i < s.len() ==> p(#[trigger] s[i]),
    ensures
        forall|i: int| 0 <= i < trim(s).len() ==> p(#[trigger] trim(s)[i]),
{
    lemma_trim_start_keeps(s, p);
    lemma_trim_end_keeps(trim_start(s), p);
}

proof fn lemma_trim_start_keeps(s: Seq<char>, p: spec_fn(char) -> bool)
    requires
        forall|i: int| 0 <= i < s.len() ==> p(#[trigger] s[i]),
    ensures
        forall|i: int| 0 <= i < trim_start(s).len() ==> p(#[trigger] trim_start(s)[i]),
    decreases s.len(),
{
    if s.len() > 0 && is_space(s[0]) {
        let d = s.drop_first();
        assert forall|i: int| 0 <= i < d.len() implies p(#[trigger] d[i]) by {
            assert(d[i] == s[i + 1]);
        }
        lemma_trim_start_keeps(d, p);
        assert(trim_start(s) == trim_start(d));
    } else {
        assert(trim_start(s) == s);
    }
}

proof fn lemma_trim_end_keeps(s: Seq<char>, p: spec_fn(char) -> bool)
    requires
        forall|i: int| 0 <= i < s.len() ==> p(#[trigger] s[i]),
    ensures
        forall|i: int| 0 <= i < trim_end(s).len() ==> p(#[trigger] trim_end(s)[i]),
    decreases s.len(),
{
    if s.len() > 0 && is_space(s.last()) {
        let d = s.drop_last();
        assert forall|i: int| 0 <= i < d.len() implies p(#[trigger] d[i]) by {
            assert(d[i] == s[i]);
        }
        lemma_trim_end_keeps(d, p);
        assert(trim_end(s) == trim_end(d));
    } else {
        assert(trim_end(s) == s);
    }
}

proof fn lemma_trim_start_skip(s: Seq<char>, i: int)
    requires
        0 <= i <= s.len(),
        forall|j: int| 0 <= j < i ==> is_space(#[trigger] s[j]),
    ensures
        trim_start(s) == trim_start(s.skip(i)),
    decreases i,
{
    if i > 0 {
        assert(s.drop_first().skip(i - 1) =~= s.skip(i));
        lemma_trim_start_skip(s.drop_first(), i - 1);
    } else {
        assert(s.skip(0) =~= s);
    }
}

proof fn lemma_trim_end_take(s: Seq<char>, j: int)
    requires
        0 <= j <= s.len(),
        forall|k: int| j <= k < s.len() ==> is_space(#[trigger] s[k]),
    ensures
        trim_end(s) == trim_end(s.take(j)),
    decreases s.len() - j,
{
    if j < s.len() {
        assert(s.drop_last().take(j) =~= s.take(j));
        lemma_trim_end_take(s.drop_last(), j);
    } else {
        assert(s.take(j) =~= s);
    }
}

/// Whitespace at both ends of a sequence is what `trim` removes, so
/// `trim(s)` is the stretch between the first and last non-space characters.
pub proof fn lemma_trim_bounds(s: Seq<char>, a: int, b: int)
    requires
        0 <= a <= b <= s.len(),
        forall|j: int| 0 <= j < a ==> is_space(#[trigger] s[j]),
        forall|k: int| b <= k < s.len() ==> is_space(#[trigger] s[k]),
        a == b || (!is_space(s[a]) && !is_space(s[b - 1])),
    ensures
        trim(s) == s.subrange(a, b),
{
    lemma_trim_start_skip(s, a);
    let t = s.skip(a);
    if a == b {
        assert forall|k: int| 0 <= k < t.len() implies is_space(#[trigger] t[k]) by {
            assert(t[k] == s[a + k]);
        }
        lemma_trim_all_space(t);
        assert(s.subrange(a, b) =~= Seq::<char>::empty());
    } else {
        assert(trim_start(t) == t);
        assert forall|k: int| b - a <= k < t.len() implies is_space(#[trigger] t[k]) by {
            assert(t[k] == s[a + k]);
        }
        lemma_trim_end_take(t, b - a);
        assert(t.take(b - a) =~= s.subrange(a, b));
        assert(t.take(b - a).last() == s[b - 1]);
    }
}

proof fn lemma_trim_all_space(t: Seq<char>)
    requires
        forall|k: int| 0 <= k < t.len() ==> is_space(#[trigger] t[k]),
    ensures
        trim(t).len() == 0,
        trim_start(t).len() == 0,
    decreases t.len(),
{
    if t.len() > 0 {
        assert forall|k: int| 0 <= k < t.drop_first().len() implies is_space(
            #[trigger] t.drop_first()[k],
        ) by {
            assert(t.drop_first()[k] == t[k + 1]);
        }
        lemma_trim_all_space(t.drop_first());
    }
}

/// Returns the bounds `(a, b)` of `trim(v@)` inside `v@`.
pub fn trim_bounds(v: &Vec<char>) -> (r: (usize, usize))
    ensures
        r.0 <= r.1 <= v.len(),
        trim(v@) == v@.subrange(r.0 as int, r.1 as int),
{
    let n = v.len();
    let mut a: usize = 0;
    while a < n && is_space_char(v[a])
        invariant
            a <= n == v.len(),
            forall|j: int| 0 <= j < a ==> is_space(#[trigger] v@[j]),
        decreases n - a,
    {
        a = a + 1;
    }
    let mut b: usize = n;
    while b > a && is_space_char(v[b - 1])
        invariant
            a <= b <= n == v.len(),
            forall|k: int| b <= k < n ==> is_space(#[trigger] v@[k]),
            a < n ==> !is_space(v@[a as int]),
        decreases b,
    {
        b = b - 1;
    }
    proof {
        lemma_trim_bounds(v@, a as int, b as int);
    }
    (a, b)
}

/// `trim` on a character vector.
pub fn trim_chars(v: &Vec<char>) -> (r: Vec<char>)
    ensures
        r@ == trim(v@),
{
    let (a, b) = trim_bounds(v);
    slice_chars(v, a, b)
}

/// Whether `trim(v@)` is empty.
pub fn is_blank_chars(v: &Vec<char>) -> (r: bool)
    ensures
        r == is_blank(v@),
{
    let (a, b) = trim_bounds(v);
    a == b
}

/// A copy of `v@.subrange(a, b)`.
pub fn slice_chars(v: &Vec<char>, a: usize, b: usize) -> (r: Vec<char>)
    requires
        a <= b <= v.len(),
    ensures
        r@ == v@.subrange(a as int, b as int),
{
    let mut r: Vec<char> = Vec::new();
    let mut i = a;
    while i < b
        invariant
            a <= i <= b <= v.len(),
            r@ == v@.subrange(a as int, i as int),
        decreases b - i,
    {
        r.push(v[i]);
        i = i + 1;
    }
    r
}

// ---------------------------------------------------------------------------
// UTF-8 length
// ---------------------------------------------------------------------------

/// Number of bytes in the UTF-8 encoding of `c`.
pub open spec fn char_width(c: char) -> nat {
    let v = c as u32;
    if v <= 0x7F {
        1
    } else if v <= 0x7FF {
        2
    } else if v <= 0xFFFF {
        3
    } else {
        4
    }
}

/// Number of bytes in the UTF-8 encoding of `s` (what `str::len` returns).
pub open spec fn utf8_len(s: Seq<char>) -> nat
    decreases s.len(),
{
    if s.len() == 0 {
        0
    } else {
        char_width(s[0]) + utf8_len(s.drop_first())
    }
}

pub fn char_width_of(c: char) -> (r: usize)
    ensures
        r == char_width(c),
        1 <= r <= 4,
{
    let v = c as u32;
    if v <= 0x7F {
        1
    } else if v <= 0x7FF {
        2
    } else if v <= 0xFFFF {
        3
    } else {
        4
    }
}

pub proof fn lemma_utf8_len_add(a: Seq<char>, b: Seq<char>)
    ensures
        utf8_len(a + b) == utf8_len(a) + utf8_len(b),
    decreases a.len(),
{
    if a.len() == 0 {
        assert(a + b =~= b);
    } else {
        assert((a + b).drop_first() =~= a.drop_first() + b);
        lemma_utf8_len_add(a.drop_first(), b);
    }
}

pub proof fn lemma_utf8_len_push(a: Seq<char>, c: char)
    ensures
        utf8_len(a.push(c)) == utf8_len(a) + char_width(c),
{
    lemma_utf8_len_add(a, seq![c]);
    assert(a + seq![c] =~= a.push(c));
    assert(seq![c].drop_first() =~= Seq::<char>::empty());
    assert(utf8_len(Seq::<char>::empty()) == 0);
    assert(seq![c][0] == c);
    assert(utf8_len(seq![c]) == char_width(c) + utf8_len(seq![c].drop_first()));
}

/// `utf8_len` agrees with the length of vstd's UTF-8 encoding, which is what
/// `str::len` is specified to return.
pub proof fn lemma_utf8_len_encode(s: Seq<char>)
    ensures
        utf8_len(s) == vstd::utf8::encode_utf8(s).len(),
    decreases s.len(),
{
    if s.len() > 0 {
        lemma_utf8_len_encode(s.drop_first());
        let v = s[0] as u32;
        vstd::utf8::char_is_scalar(s[0]);
    }
}

/// Whether `utf8_len(v@) <= limit`, computed without risk of overflow.
pub fn utf8_len_at_most(v: &Vec<char>, limit: usize) -> (r: bool)
    ensures
        r == (utf8_len(v@) <= limit),
{
    let mut total: usize = 0;
    let mut i: usize = 0;
    while i < v.len()
        invariant
            i <= v.len(),
            total == utf8_len(v@.take(i as int)),
            total <= limit,
        decreases v.len() - i,
    {
        let w = char_width_of(v[i]);
        proof {
            lemma_utf8_len_push(v@.take(i as int), v@[i as int]);
            assert(v@.take(i as int).push(v@[i as int]) =~= v@.take(i + 1));
        }
        if w > limit - total {
            proof {
                lemma_utf8_len_add(v@.take(i + 1), v@.skip(i + 1));
                assert(v@.take(i + 1) + v@.skip(i + 1) =~= v@);
            }
            return false;
        }
        total = total + w;
        i = i + 1;
    }
    assert(v@.take(i as int) =~= v@);
    true
}

// ---------------------------------------------------------------------------
// Lines
// ---------------------------------------------------------------------------

/// Index of the first `'\n'` in `s`, or `s.len()` when there is none.
pub open spec fn newline_pos(s: Seq<char>) -> nat
    decreases s.len(),
{
    if s.len() == 0 {
        0
    } else if s[0] == '\n' {
        0
    } else {
        1 + newline_pos(s.drop_first())
    }
}

/// A line without its `'\r'` when it ended in `"\r\n"`.
pub open spec fn strip_cr(s: Seq<char>) -> Seq<char> {
    if s.len() > 0 && s.last() == '\r' {
        s.drop_last()
    } else {
        s
    }
}

/// The lines of `s`, as `str::lines` yields them: split at each `'\n'`, a
/// `'\r'` before the `'\n'` removed, and no empty line after a final `'\n'`.
pub open spec fn lines(s: Seq<char>) -> Seq<Seq<char>>
    decreases s.len(),
{
    if s.len() == 0 {
        seq![]
    } else {
        let k = newline_pos(s);
        if k >= s.len() {
            seq![s]
        } else {
            seq![strip_cr(s.take(k as int))] + lines(s.skip((k + 1) as int))
        }
    }
}

/// `newline_pos` is the index of the first `'\n'`.
pub proof fn lemma_newline_pos(s: Seq<char>, k: int)
    requires
        0 <= k <= s.len(),
        forall|j: int| 0 <= j < k ==> #[trigger] s[j] != '\n',
        k == s.len() || s[k] == '\n',
    ensures
        newline_pos(s) == k,
    decreases k,
{
    if k > 0 {
        assert forall|j: int| 0 <= j < k - 1 implies #[trigger] s.drop_first()[j] != '\n' by {
            assert(s.drop_first()[j] == s[j + 1]);
        }
        lemma_newline_pos(s.drop_first(), k - 1);
    }
}

/// `newline_pos` stays within `s`, and points at a `'\n'` when below its end.
pub proof fn lemma_newline_pos_bounds(s: Seq<char>)
    ensures
        newline_pos(s) <= s.len(),
        newline_pos(s) < s.len() ==> s[newline_pos(s) as int] == '\n',
        forall|j: int| 0 <= j < newline_pos(s) ==> #[trigger] s[j] != '\n',
    decreases s.len(),
{
    if s.len() > 0 && s[0] != '\n' {
        lemma_newline_pos_bounds(s.drop_first());
        assert forall|j: int| 0 <= j < newline_pos(s) implies #[trigger] s[j] != '\n' by {
            if j > 0 {
                assert(s[j] == s.drop_first()[j - 1]);
            }
        }
    }
}

/// The views of a sequence of character vectors.
pub open spec fn seqs(v: Seq<Vec<char>>) -> Seq<Seq<char>> {
    v.map_values(|x: Vec<char>| x@)
}

pub proof fn lemma_seqs_push(v: Seq<Vec<char>>, x: Vec<char>)
    ensures
        seqs(v.push(x)) == seqs(v).push(x@),
{
    assert(seqs(v.push(x)) =~= seqs(v).push(x@));
}

/// Splits `s` into lines as `str::lines` does.
pub fn split_lines(s: &Vec<char>) -> (out: Vec<Vec<char>>)
    ensures
        seqs(out@) == lines(s@),
{
    let n = s.len();
    let mut out: Vec<Vec<char>> = Vec::new();
    let mut cur: Vec<char> = Vec::new();
    let mut i: usize = 0;
    let ghost mut start: int = 0;
    assert(s@.skip(0) =~= s@);
    while i < n
        invariant
            n == s.len(),
            0 <= start <= i <= n,
            lines(s@) == seqs(out@) + lines(s@.skip(start)),
            cur@ == s@.subrange(start, i as int),
            forall|j: int| start <= j < i ==> #[trigger] s@[j] != '\n',
        decreases n - i,
    {
        if s[i] == '\n' {
            let ghost t = s@.skip(start);
            proof {
                assert forall|j: int| 0 <= j < i - start implies #[trigger] t[j] != '\n' by {
                    assert(t[j] == s@[start + j]);
                }
                lemma_newline_pos(t, i - start);
                assert(t.take(i - start) =~= cur@);
                assert(t.skip(i - start + 1) =~= s@.skip(i + 1));
            }
            let mut line = cur;
            let len = line.len();
            if len > 0 && line[len - 1] == '\r' {
                line.pop();
            }
            proof {
                assert(line@ == strip_cr(t.take(i - start)));
                lemma_seqs_push(out@, line);
                assert(seqs(out@.push(line)) + lines(s@.skip(i + 1)) =~= seqs(out@) + lines(t));
            }
            out.push(line);
            cur = Vec::new();
            proof {
                start = i + 1;
            }
        } else {
            cur.push(s[i]);
        }
        i = i + 1;
    }
    let ghost t = s@.skip(start);
    proof {
        assert(t =~= cur@);
        assert forall|j: int| 0 <= j < t.len() implies #[trigger] t[j] != '\n' by {
            assert(t[j] == s@[start + j]);
        }
        lemma_newline_pos(t, t.len() as int);
    }
    if cur.len() > 0 {
        proof {
            lemma_seqs_push(out@, cur);
            assert(seqs(out@.push(cur)) =~= seqs(out@) + lines(t));
        }
        out.push(cur);
    } else {
        assert(seqs(out@) + lines(t) =~= seqs(out@));
    }
    out
}

// ---------------------------------------------------------------------------
// Joining
// ---------------------------------------------------------------------------

/// The lines `ls` joined with `'\n'` between them, as `[&str]::join("\n")`.
pub open spec fn join_lines(ls: Seq<Seq<char>>) -> Seq<char>
    decreases ls.len(),
{
    if ls.len() == 0 {
        seq![]
    } else if ls.len() == 1 {
        ls[0]
    } else {
        join_lines(ls.drop_last()) + seq!['\n'] + ls.last()
    }
}

/// The pieces of `s` between its `'\n'` characters (`str::split('\n')`):
/// one more piece than there are line breaks.
pub open spec fn newline_pieces(s: Seq<char>) -> Seq<Seq<char>>
    decreases s.len(),
{
    let k = newline_pos(s);
    if k >= s.len() {
        seq![s]
    } else {
        seq![s.take(k as int)] + newline_pieces(s.skip((k + 1) as int))
    }
}


/// Splits `s` at every `'\n'`.
pub fn split_pieces(s: &Vec<char>) -> (out: Vec<Vec<char>>)
    ensures
        seqs(out@) == newline_pieces(s@),
{
    let n = s.len();
    let mut out: Vec<Vec<char>> = Vec::new();
    let mut cur: Vec<char> = Vec::new();
    let mut i: usize = 0;
    let ghost mut start: int = 0;
    assert(s@.skip(0) =~= s@);
    while i < n
        invariant
            n == s.len(),
            0 <= start <= i <= n,
            newline_pieces(s@) == seqs(out@) + newline_pieces(s@.skip(start)),
            cur@ == s@.subrange(start, i as int),
            forall|j: int| start <= j < i ==> #[trigger] s@[j] != '\n',
        decreases n - i,
    {
        if s[i] == '\n' {
            let ghost t = s@.skip(start);
            proof {
                assert forall|j: int| 0 <= j < i - start implies #[trigger] t[j] != '\n' by {
                    assert(t[j] == s@[start + j]);
                }
                lemma_newline_pos(t, i - start);
                assert(t.take(i - start) =~= cur@);
                assert(t.skip(i - start + 1) =~= s@.skip(i + 1));
                lemma_seqs_push(out@, cur);
                assert(seqs(out@.push(cur)) + newline_pieces(s@.skip(i + 1)) =~= seqs(out@)
                    + newline_pieces(t));
            }
            out.push(cur);
            cur = Vec::new();
            proof {
                start = i + 1;
            }
        } else {
            cur.push(s[i]);
        }
        i = i + 1;
    }
    let ghost t = s@.skip(start);
    proof {
        assert(t =~= cur@);
        assert forall|j: int| 0 <= j < t.len() implies #[trigger] t[j] != '\n' by {
            assert(t[j] == s@[start + j]);
        }
        lemma_newline_pos(t, t.len() as int);
        lemma_seqs_push(out@, cur);
        assert(seqs(out@.push(cur)) =~= seqs(out@) + newline_pieces(t));
    }
    out.push(cur);
    out
}

pub proof fn lemma_join_prepend(a: Seq<char>, ls: Seq<Seq<char>>)
    requires
        ls.len() > 0,
    ensures
        join_lines(seq![a] + ls) == a + seq!['\n'] + join_lines(ls),
    decreases ls.len(),
{
    let all = seq![a] + ls;
    if ls.len() == 1 {
        assert(all.drop_last() =~= seq![a]);
        assert(join_lines(seq![a]) == a);
    } else {
        lemma_join_prepend(a, ls.drop_last());
        assert(all.drop_last() =~= seq![a] + ls.drop_last());
        assert(a + seq!['\n'] + join_lines(ls.drop_last()) + seq!['\n'] + ls.last() =~= a + seq![
            '\n',
        ] + (join_lines(ls.drop_last()) + seq!['\n'] + ls.last()));
    }
}


/// Splitting a text at its line breaks and joining the pieces back with
/// `'\n'` gives the text again.
pub proof fn law_pieces_roundtrip(s: Seq<char>)
    ensures
        join_lines(newline_pieces(s)) == s,
        newline_pieces(s).len() > 0,
    decreases s.len(),
{
    let k = newline_pos(s);
    lemma_newline_pos_bounds(s);
    if k < s.len() {
        let rest = s.skip((k + 1) as int);
        law_pieces_roundtrip(rest);
        lemma_join_prepend(s.take(k as int), newline_pieces(rest));
        assert(s.take(k as int) + seq!['\n'] + rest =~= s);
    }
}

/// No `'\n'` in `s`.
pub open spec fn no_newline(s: Seq<char>) -> bool {
    forall|j: int| 0 <= j < s.len() ==> #[trigger] s[j] != '\n'
}

/// A text without line breaks is one piece.
pub proof fn lemma_pieces_single(a: Seq<char>)
    requires
        no_newline(a),
    ensures
        newline_pieces(a) == seq![a],
{
    lemma_newline_pos(a, a.len() as int);
}

/// Splitting a line without breaks, then a break, then more text, gives the
/// line and then the pieces of the rest.
pub proof fn lemma_pieces_prepend(a: Seq<char>, rest: Seq<char>)
    requires
        no_newline(a),
    ensures
        newline_pieces(a + seq!['\n'] + rest) == seq![a] + newline_pieces(rest),
{
    let s = a + seq!['\n'] + rest;
    assert forall|j: int| 0 <= j < a.len() implies #[trigger] s[j] != '\n' by {
        assert(s[j] == a[j]);
    }
    lemma_newline_pos(s, a.len() as int);
    assert(s.take(a.len() as int) =~= a);
    assert(s.skip(a.len() as int + 1) =~= rest);
}

/// Joining lines that hold no line break with `'\n'`, then splitting the
/// result at its line breaks, gives the lines back.
pub proof fn lemma_pieces_of_join(g: Seq<Seq<char>>)
    requires
        g.len() > 0,
        forall|i: int| 0 <= i < g.len() ==> no_newline(#[trigger] g[i]),
    ensures
        newline_pieces(join_lines(g)) == g,
    decreases g.len(),
{
    if g.len() == 1 {
        lemma_pieces_single(g[0]);
        assert(seq![g[0]] =~= g);
    } else {
        let rest = g.drop_first();
        assert(seq![g[0]] + rest =~= g);
        lemma_join_prepend(g[0], rest);
        assert forall|i: int| 0 <= i < rest.len() implies no_newline(#[trigger] rest[i]) by {
            assert(rest[i] == g[i + 1]);
        }
        lemma_pieces_of_join(rest);
        lemma_pieces_prepend(g[0], join_lines(rest));
    }
}

/// No piece of `newline_pieces(s)` holds a line break.
pub proof fn lemma_pieces_no_newline(s: Seq<char>)
    ensures
        forall|i: int|
            0 <= i < newline_pieces(s).len() ==> no_newline(#[trigger] newline_pieces(s)[i]),
    decreases s.len(),
{
    let k = newline_pos(s);
    lemma_newline_pos_bounds(s);
    if k < s.len() {
        let rest = s.skip((k + 1) as int);
        lemma_pieces_no_newline(rest);
        let first = s.take(k as int);
        assert forall|j: int| 0 <= j < first.len() implies #[trigger] first[j] != '\n' by {
            assert(first[j] == s[j]);
        }
        assert forall|i: int| 0 <= i < newline_pieces(s).len() implies no_newline(
            #[trigger] newline_pieces(s)[i],
        ) by {
            if i > 0 {
                assert(newline_pieces(s)[i] == newline_pieces(rest)[i - 1]);
            } else {
                assert(newline_pieces(s)[i] == first);
            }
        }
    } else {
        assert(no_newline(newline_pieces(s)[0]));
    }
}

/// No line of `lines(s)` holds a line break.
pub proof fn lemma_lines_no_newline(s: Seq<char>)
    ensures
        forall|i: int| 0 <= i < lines(s).len() ==> no_newline(#[trigger] lines(s)[i]),
    decreases s.len(),
{
    if s.len() > 0 {
        let k = newline_pos(s);
        lemma_newline_pos_bounds(s);
        if k < s.len() {
            let rest = s.skip((k + 1) as int);
            lemma_lines_no_newline(rest);
            let first = strip_cr(s.take(k as int));
            assert forall|j: int| 0 <= j < first.len() implies #[trigger] first[j] != '\n' by {
                assert(first[j] == s[j]);
            }
            assert forall|i: int| 0 <= i < lines(s).len() implies no_newline(
                #[trigger] lines(s)[i],
            ) by {
                if i > 0 {
                    assert(lines(s)[i] == lines(rest)[i - 1]);
                } else {
                    assert(lines(s)[i] == first);
                }
            }
        } else {
            assert(lines(s) =~= seq![s]);
            assert(no_newline(lines(s)[0]));
        }
    }
}

/// Appends `w@` to `v`.
pub fn extend_chars(v: &mut Vec<char>, w: &Vec<char>)
    ensures
        final(v)@ == old(v)@ + w@,
{
    let mut i: usize = 0;
    while i < w.len()
        invariant
            i <= w.len(),
            v@ == old(v)@ + w@.take(i as int),
        decreases w.len() - i,
    {
        v.push(w[i]);
        i = i + 1;
        assert(v@ =~= old(v)@ + w@.take(i as int));
    }
    assert(w@.take(i as int) =~= w@);
}

/// Joins the lines `ls` with `'\n'`.
pub fn join_chars(ls: &Vec<Vec<char>>) -> (r: Vec<char>)
    ensures
        r@ == join_lines(seqs(ls@)),
{
    let mut r: Vec<char> = Vec::new();
    let mut i: usize = 0;
    while i < ls.len()
        invariant
            i <= ls.len(),
            r@ == join_lines(seqs(ls@).take(i as int)),
        decreases ls.len() - i,
    {
        let ghost before = seqs(ls@).take(i as int);
        if i > 0 {
            r.push('\n');
        }
        extend_chars(&mut r, &ls[i]);
        i = i + 1;
        proof {
            let after = seqs(ls@).take(i as int);
            assert(after.drop_last() =~= before);
            if i == 1 {
                assert(r@ =~= after[0]);
            }
        }
    }
    assert(seqs(ls@).take(i as int) =~= seqs(ls@));
    r
}

// ---------------------------------------------------------------------------
// Strings
// ---------------------------------------------------------------------------

/// The characters of `s`.
pub fn to_chars(s: &str) -> (out: Vec<char>)
    ensures
        out@ == s@,
{
    let mut out: Vec<char> = Vec::new();
    for c in it: s.chars()
        invariant
            out@ == it.seq().take(it.index() as int),
    {
        out.push(c);
    }
    out
}

/// `String::push`. The contract claims that the string afterwards holds the
/// old characters followed by `c`.
#[verifier::external_body]
fn push_char(s: &mut String, c: char)
    ensures
        final(s)@ == old(s)@.push(c),
{
    s.push(c);
}

/// A `String` holding the characters of `v`.
pub fn to_string(v: &Vec<char>) -> (s: String)
    ensures
        s@ == v@,
{
    let mut s = String::new();
    let mut i: usize = 0;
    while i < v.len()
        invariant
            i <= v.len(),
            s@ == v@.take(i as int),
        decreases v.len() - i,
    {
        push_char(&mut s, v[i]);
        i = i + 1;
        assert(s@ =~= v@.take(i as int));
    }
    assert(v@.take(i as int) =~= v@);
    s
}

/// Whether two character vectors hold the same characters.
pub fn same_chars(a: &Vec<char>, b: &Vec<char>) -> (r: bool)
    ensures
        r == (a@ == b@),
{
    if a.len() != b.len() {
        return false;
    }
    let mut i: usize = 0;
    while i < a.len()
        invariant
            i <= a.len() == b.len(),
            forall|j: int| 0 <= j < i ==> a@[j] == b@[j],
        decreases a.len() - i,
    {
        if a[i] != b[i] {
            return false;
        }
        i = i + 1;
    }
    assert(a@ =~= b@);
    true
}

/// Whether `p` is a prefix of `s`.
pub open spec fn has_prefix(s: Seq<char>, p: Seq<char>) -> bool {
    p.len() <= s.len() && s.take(p.len() as int) == p
}

pub fn starts_with_chars(s: &Vec<char>, p: &Vec<char>) -> (r: bool)
    ensures
        r == has_prefix(s@, p@),
{
    if p.len() > s.len() {
        return false;
    }
    let mut i: usize = 0;
    while i < p.len()
        invariant
            i <= p.len() <= s.len(),
            forall|j: int| 0 <= j < i ==> s@[j] == p@[j],
        decreases p.len() - i,
    {
        if s[i] != p[i] {
            assert(s@.take(p.len() as int)[i as int] != p@[i as int]);
            return false;
        }
        i = i + 1;
    }
    assert(s@.take(p.len() as int) =~= p@);
    true
}

/// Whether `p` occurs in `s` at position `i`.
pub open spec fn occurs_at(s: Seq<char>, p: Seq<char>, i: int) -> bool {
    0 <= i && i + p.len() <= s.len() && s.subrange(i, i + p.len()) == p
}

/// Whether `p` occurs anywhere in `s` (`str::contains` with a string).
pub open spec fn contains_seq(s: Seq<char>, p: Seq<char>) -> bool {
    exists|i: int| occurs_at(s, p, i)
}

fn matches_at(s: &Vec<char>, p: &Vec<char>, i: usize) -> (r: bool)
    requires
        i + p.len() <= s.len(),
    ensures
        r == occurs_at(s@, p@, i as int),
{
    let mut j: usize = 0;
    while j < p.len()
        invariant
            j <= p.len(),
            i + p.len() <= s.len(),
            forall|k: int| 0 <= k < j ==> s@[i + k] == p@[k],
        decreases p.len() - j,
    {
        if s[i + j] != p[j] {
            assert(s@.subrange(i as int, i + p.len())[j as int] != p@[j as int]);
            return false;
        }
        j = j + 1;
    }
    assert(s@.subrange(i as int, i + p.len()) =~= p@);
    true
}

pub fn contains_chars(s: &Vec<char>, p: &Vec<char>) -> (r: bool)
    ensures
        r == contains_seq(s@, p@),
{
    if p.len() > s.len() {
        return false;
    }
    let last = s.len() - p.len();
    let mut i: usize = 0;
    loop
        invariant
            last == s.len() - p.len(),
            i <= last,
            forall|k: int| 0 <= k < i ==> !occurs_at(s@, p@, k),
        decreases last - i,
    {
        if matches_at(s, p, i) {
            return true;
        }
        if i == last {
            return false;
        }
        i = i + 1;
    }
}

// ---------------------------------------------------------------------------
// Decimal numerals
// ---------------------------------------------------------------------------

pub open spec fn digit_char(d: nat) -> char {
    if d == 0 {
        '0'
    } else if d == 1 {
        '1'
    } else if d == 2 {
        '2'
    } else if d == 3 {
        '3'
    } else if d == 4 {
        '4'
    } else if d == 5 {
        '5'
    } else if d == 6 {
        '6'
    } else if d == 7 {
        '7'
    } else if d == 8 {
        '8'
    } else {
        '9'
    }
}

/// The decimal numeral of `n`, as `Display` writes it.
pub open spec fn decimal(n: nat) -> Seq<char>
    decreases n,
{
    if n < 10 {
        seq![digit_char(n)]
    } else {
        decimal(n / 10) + seq![digit_char(n % 10)]
    }
}

fn digit_of(d: u64) -> (c: char)
    requires
        d < 10,
    ensures
        c == digit_char(d as nat),
{
    if d == 0 {
        '0'
    } else if d == 1 {
        '1'
    } else if d == 2 {
        '2'
    } else if d == 3 {
        '3'
    } else if d == 4 {
        '4'
    } else if d == 5 {
        '5'
    } else if d == 6 {
        '6'
    } else if d == 7 {
        '7'
    } else if d == 8 {
        '8'
    } else {
        '9'
    }
}

/// Appends the decimal numeral of `n` to `out`.
pub fn push_decimal(out: &mut Vec<char>, n: u64)
    ensures
        final(out)@ == old(out)@ + decimal(n as nat),
    decreases n,
{
    if n >= 10 {
        push_decimal(out, n / 10);
    }
    out.push(digit_of(n % 10));
    assert(out@ =~= old(out)@ + decimal(n as nat));
}

} // verus!
