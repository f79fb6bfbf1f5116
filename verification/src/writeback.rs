//! Write-back: which paths may be written, what a write or an append leaves
//! in a file, and where `add_fact` puts a new bullet.

use vstd::prelude::*;
use crate::error::CoreError;
use crate::text::{
    contains_chars, contains_seq, extend_chars, has_prefix, is_blank, is_blank_chars, is_space,
    is_space_char, join_chars, join_lines, lemma_seqs_push, newline_pos, same_chars, seqs,
    slice_chars, starts_with_chars, to_chars, to_string, trim, trim_chars, newline_pieces,
    split_pieces, no_newline, lemma_pieces_no_newline, lemma_pieces_of_join,
};

verus! {

broadcast use vstd::seq_lib::group_seq_properties;

// ---------------------------------------------------------------------------
// Paths
// ---------------------------------------------------------------------------

/// A character allowed in a writable path: `[a-zA-Z0-9_\-/]`.
pub open spec fn is_path_char(c: char) -> bool {
    ||| ('a' <= c && c <= 'z')
    ||| ('A' <= c && c <= 'Z')
    ||| ('0' <= c && c <= '9')
    ||| c == '_'
    ||| c == '-'
    ||| c == '/'
}

/// Whether `p` is a suffix of `s`.
pub open spec fn has_suffix(s: Seq<char>, p: Seq<char>) -> bool {
    p.len() <= s.len() && s.skip(s.len() - p.len()) == p
}

/// The pattern `^[a-zA-Z0-9_\-/]+\.md$`: one or more path characters, then
/// `.md`, and nothing else.
pub open spec fn is_safe_path(s: Seq<char>) -> bool {
    &&& s.len() > 3
    &&& has_suffix(s, ".md"@)
    &&& forall|i: int| 0 <= i < s.len() - 3 ==> is_path_char(#[trigger] s[i])
}

/// A (trimmed) relative path that may be written: not absolute, no `..`, and
/// a safe markdown path.
pub open spec fn write_path_ok(rel: Seq<char>) -> bool {
    !has_prefix(rel, "/"@) && !contains_seq(rel, ".."@) && is_safe_path(rel)
}

fn is_path_char_exec(c: char) -> (r: bool)
    ensures
        r == is_path_char(c),
{
    ('a' <= c && c <= 'z') || ('A' <= c && c <= 'Z') || ('0' <= c && c <= '9') || c == '_' || c
        == '-' || c == '/'
}

pub fn ends_with_chars(s: &Vec<char>, p: &Vec<char>) -> (r: bool)
    ensures
        r == has_suffix(s@, p@),
{
    if p.len() > s.len() {
        return false;
    }
    let tail = slice_chars(s, s.len() - p.len(), s.len());
    assert(tail@ =~= s@.skip(s@.len() - p@.len()));
    same_chars(&tail, p)
}

fn is_safe_path_exec(s: &Vec<char>) -> (r: bool)
    ensures
        r == is_safe_path(s@),
{
    if s.len() <= 3 {
        return false;
    }
    if !ends_with_chars(s, &to_chars(".md")) {
        return false;
    }
    let n = s.len() - 3;
    let mut i: usize = 0;
    while i < n
        invariant
            n == s.len() - 3,
            i <= n,
            forall|j: int| 0 <= j < i ==> is_path_char(#[trigger] s@[j]),
        decreases n - i,
    {
        if !is_path_char_exec(s[i]) {
            return false;
        }
        i = i + 1;
    }
    true
}

/// Checks a relative path before a write: the trimmed path, or the error
/// that names the path as given.
pub fn check_write_path(rel_path: &str) -> (r: Result<String, CoreError>)
    ensures
        match r {
            Ok(rel) => write_path_ok(trim(rel_path@)) && rel@ == trim(rel_path@),
            Err(e) => !write_path_ok(trim(rel_path@)) && (e matches CoreError::InvalidPath(p)
                && p@ == rel_path@),
        },
{
    let rel = trim_chars(&to_chars(rel_path));
    if starts_with_chars(&rel, &to_chars("/")) || contains_chars(&rel, &to_chars(".."))
        || !is_safe_path_exec(&rel) {
        return Err(CoreError::InvalidPath(String::from_str(rel_path)));
    }
    Ok(to_string(&rel))
}

/// `s` without its leading `'/'` characters.
pub open spec fn trim_leading_slashes(s: Seq<char>) -> Seq<char>
    decreases s.len(),
{
    if s.len() > 0 && s[0] == '/' {
        trim_leading_slashes(s.drop_first())
    } else {
        s
    }
}

/// The path a read resolves to: trimmed, without leading slashes.
pub open spec fn read_path(rel_path: Seq<char>) -> Seq<char> {
    trim_leading_slashes(trim(rel_path))
}

/// Checks a relative path before a read: the path to read below the memory
/// directory, unless it holds `..`.
pub fn check_read_path(rel_path: &str) -> (r: Result<String, CoreError>)
    ensures
        match r {
            Ok(rel) => !contains_seq(read_path(rel_path@), ".."@) && rel@ == read_path(rel_path@),
            Err(e) => contains_seq(read_path(rel_path@), ".."@) && (e matches CoreError::InvalidPath(
                p,
            ) && p@ == rel_path@),
        },
{
    let t = trim_chars(&to_chars(rel_path));
    let mut a: usize = 0;
    while a < t.len() && t[a] == '/'
        invariant
            a <= t.len(),
            trim_leading_slashes(t@) == trim_leading_slashes(t@.skip(a as int)),
        decreases t.len() - a,
    {
        assert(t@.skip(a as int).drop_first() =~= t@.skip(a + 1));
        a = a + 1;
    }
    let rel = slice_chars(&t, a, t.len());
    assert(rel@ =~= t@.skip(a as int));
    if contains_chars(&rel, &to_chars("..")) {
        return Err(CoreError::InvalidPath(String::from_str(rel_path)));
    }
    Ok(to_string(&rel))
}

// ---------------------------------------------------------------------------
// Writing and appending
// ---------------------------------------------------------------------------

/// What a file holds after a write of `content`: the content itself, or,
/// for an append to an existing file, the old text, a line break if it did
/// not end with one, and the content.
pub open spec fn text_after_write(existing: Option<Seq<char>>, content: Seq<char>, append: bool) -> Seq<
    char,
> {
    if append && existing is Some {
        let e = existing->0;
        if has_suffix(e, "\n"@) {
            e + content
        } else {
            e + "\n"@ + content
        }
    } else {
        content
    }
}

pub open spec fn opt_view(s: Option<&str>) -> Option<Seq<char>> {
    match s {
        Some(t) => Some(t@),
        None => None,
    }
}

pub fn written_text(existing: Option<&str>, content: &str, append: bool) -> (r: String)
    ensures
        r@ == text_after_write(opt_view(existing), content@, append),
{
    proof {
        reveal_strlit("\n");
    }
    match existing {
        Some(e) => {
            if append {
                let mut v = to_chars(e);
                if !ends_with_chars(&v, &to_chars("\n")) {
                    v.push('\n');
                }
                extend_chars(&mut v, &to_chars(content));
                return to_string(&v);
            }
        },
        None => {},
    }
    to_string(&to_chars(content))
}

// ---------------------------------------------------------------------------
// Facts
// ---------------------------------------------------------------------------

/// A fact as a markdown bullet: `"- "` in front unless it already starts so.
pub open spec fn fact_bullet(fact: Seq<char>) -> Seq<char> {
    if has_prefix(fact, "- "@) {
        fact
    } else {
        "- "@ + fact
    }
}

pub fn bullet_for(fact: &str) -> (r: String)
    ensures
        r@ == fact_bullet(fact@),
{
    let f = to_chars(fact);
    if starts_with_chars(&f, &to_chars("- ")) {
        to_string(&f)
    } else {
        let mut v = to_chars("- ");
        extend_chars(&mut v, &f);
        to_string(&v)
    }
}

/// A line that ends a section: an h1-h3 heading (`'#'` but not `"####"`).
pub open spec fn is_section_break(l: Seq<char>) -> bool {
    has_prefix(l, "#"@) && !has_prefix(l, "####"@)
}

/// Index of the first line at or after `i` that, trimmed, equals `target`;
/// `-1` when there is none.
pub open spec fn find_section_from(ls: Seq<Seq<char>>, target: Seq<char>, i: int) -> int
    decreases ls.len() - i,
{
    if i < 0 || i >= ls.len() {
        -1
    } else if trim(ls[i]) == target {
        i
    } else {
        find_section_from(ls, target, i + 1)
    }
}

/// Index of the first section break at or after `j`, or the number of lines.
pub open spec fn section_end_from(ls: Seq<Seq<char>>, j: int) -> int
    decreases ls.len() - j,
{
    if j >= ls.len() {
        ls.len() as int
    } else if is_section_break(ls[j]) {
        j
    } else {
        section_end_from(ls, j + 1)
    }
}

/// `j` moved back over blank lines, but not before `lo`.
pub open spec fn back_over_blanks(ls: Seq<Seq<char>>, lo: int, j: int) -> int
    decreases j - lo,
{
    if j > lo && 0 < j <= ls.len() && is_blank(ls[j - 1]) {
        back_over_blanks(ls, lo, j - 1)
    } else {
        j
    }
}

/// Where the bullet goes in a section whose heading is line `idx`: after the
/// section's last non-blank line, before the next h1-h3 heading.
pub open spec fn fact_position(ls: Seq<Seq<char>>, idx: int) -> int {
    back_over_blanks(ls, idx + 1, section_end_from(ls, idx + 1))
}

/// The lines of a file after `bullet` is added under `section`.
pub open spec fn lines_with_fact(ls: Seq<Seq<char>>, section: Seq<char>, bullet: Seq<char>) -> Seq<
    Seq<char>,
> {
    let idx = find_section_from(ls, trim(section), 0);
    if idx >= 0 {
        ls.insert(fact_position(ls, idx), bullet)
    } else {
        let padded = if ls.len() > 0 && ls.last().len() > 0 {
            ls.push(seq![])
        } else {
            ls
        };
        padded.push(seq![]).push(section).push(bullet)
    }
}

/// The text of an existing file after `add_fact` puts `bullet` under
/// `section`.
pub open spec fn text_with_fact(text: Seq<char>, section: Seq<char>, bullet: Seq<char>) -> Seq<
    char,
> {
    join_lines(lines_with_fact(newline_pieces(text), section, bullet))
}

proof fn lemma_find_section(ls: Seq<Seq<char>>, target: Seq<char>, i: int)
    requires
        0 <= i <= ls.len(),
    ensures
        -1 <= find_section_from(ls, target, i) < ls.len(),
        find_section_from(ls, target, i) >= 0 ==> i <= find_section_from(ls, target, i),
    decreases ls.len() - i,
{
    if i < ls.len() && trim(ls[i]) != target {
        lemma_find_section(ls, target, i + 1);
    }
}

proof fn lemma_section_end(ls: Seq<Seq<char>>, j: int)
    requires
        0 <= j <= ls.len(),
    ensures
        j <= section_end_from(ls, j) <= ls.len(),
        forall|m: int| j <= m < section_end_from(ls, j) ==> !is_section_break(#[trigger] ls[m]),
        section_end_from(ls, j) < ls.len() ==> is_section_break(ls[section_end_from(ls, j)]),
    decreases ls.len() - j,
{
    if j < ls.len() && !is_section_break(ls[j]) {
        lemma_section_end(ls, j + 1);
    }
}

proof fn lemma_back_over_blanks(ls: Seq<Seq<char>>, lo: int, j: int)
    requires
        0 <= lo <= j <= ls.len(),
    ensures
        lo <= back_over_blanks(ls, lo, j) <= j,
        forall|m: int| back_over_blanks(ls, lo, j) <= m < j ==> is_blank(#[trigger] ls[m]),
        back_over_blanks(ls, lo, j) > lo ==> !is_blank(ls[back_over_blanks(ls, lo, j) - 1]),
    decreases j - lo,
{
    if j > lo && is_blank(ls[j - 1]) {
        lemma_back_over_blanks(ls, lo, j - 1);
    }
}

fn find_section(ls: &Vec<Vec<char>>, target: &Vec<char>) -> (r: Option<usize>)
    ensures
        match r {
            Some(i) => find_section_from(seqs(ls@), target@, 0) == i as int,
            None => find_section_from(seqs(ls@), target@, 0) == -1,
        },
{
    let ghost l = seqs(ls@);
    let mut i: usize = 0;
    while i < ls.len()
        invariant
            i <= ls.len(),
            l == seqs(ls@),
            find_section_from(l, target@, 0) == find_section_from(l, target@, i as int),
        decreases ls.len() - i,
    {
        let t = trim_chars(&ls[i]);
        if same_chars(&t, target) {
            return Some(i);
        }
        i = i + 1;
    }
    None
}

fn section_break_exec(l: &Vec<char>) -> (r: bool)
    ensures
        r == is_section_break(l@),
{
    starts_with_chars(l, &to_chars("#")) && !starts_with_chars(l, &to_chars("####"))
}

/// Where the bullet goes when the section heading is line `idx`.
fn fact_insert_position(ls: &Vec<Vec<char>>, idx: usize) -> (r: usize)
    requires
        idx < ls.len(),
    ensures
        r as int == fact_position(seqs(ls@), idx as int),
        idx < r <= ls.len(),
{
    let ghost l0 = seqs(ls@);
    let mut insert = idx + 1;
    while insert < ls.len() && !section_break_exec(&ls[insert])
        invariant
            idx < insert <= ls.len(),
            l0 == seqs(ls@),
            section_end_from(l0, insert as int) == section_end_from(l0, idx + 1),
        decreases ls.len() - insert,
    {
        insert = insert + 1;
    }
    let ghost end = insert as int;
    while insert > idx + 1 && is_blank_chars(&ls[insert - 1])
        invariant
            idx < insert <= end <= ls.len(),
            l0 == seqs(ls@),
            back_over_blanks(l0, idx + 1, insert as int) == back_over_blanks(l0, idx + 1, end),
        decreases insert,
    {
        insert = insert - 1;
    }
    insert
}

/// Adds `bullet` under `section` in the text of an existing file.
pub fn insert_fact(text: &str, section: &str, bullet: &str) -> (r: String)
    ensures
        r@ == text_with_fact(text@, section@, bullet@),
{
    let mut ls = split_pieces(&to_chars(text));
    let ghost l0 = seqs(ls@);
    let sec = to_chars(section);
    let target = trim_chars(&sec);
    let b = to_chars(bullet);
    match find_section(&ls, &target) {
        Some(idx) => {
            proof {
                lemma_find_section(l0, target@, 0);
            }
            let pos = fact_insert_position(&ls, idx);
            ls.insert(pos, b);
            assert(seqs(ls@) =~= l0.insert(pos as int, b@));
        },
        None => {
            let n = ls.len();
            if n > 0 && ls[n - 1].len() > 0 {
                let e0: Vec<char> = Vec::new();
                proof {
                    lemma_seqs_push(ls@, e0);
                }
                ls.push(e0);
            }
            let e1: Vec<char> = Vec::new();
            proof {
                lemma_seqs_push(ls@, e1);
            }
            ls.push(e1);
            proof {
                lemma_seqs_push(ls@, sec);
            }
            ls.push(sec);
            proof {
                lemma_seqs_push(ls@, b);
            }
            ls.push(b);
            assert(seqs(ls@) =~= lines_with_fact(l0, section@, bullet@));
        },
    }
    to_string(&join_chars(&ls))
}

// ---------------------------------------------------------------------------
// Titles of new fact files
// ---------------------------------------------------------------------------

/// What `char::to_uppercase` yields for `c`.
pub uninterp spec fn char_upper(c: char) -> Seq<char>;

/// What `char::to_lowercase` yields for `c`.
pub uninterp spec fn char_lower(c: char) -> Seq<char>;

/// Characters whose case mapping needs no Unicode table: the ASCII ones,
/// and the em dash, which has no case at all.
pub open spec fn plain_cased(c: char) -> bool {
    (c as u32) < 128 || c == '\u{2014}'
}

/// Every character of `s` is `plain_cased`.
pub open spec fn all_plain_cased(s: Seq<char>) -> bool {
    forall|i: int| 0 <= i < s.len() ==> plain_cased(#[trigger] s[i])
}

/// The capital of an ASCII lower-case letter; any other character as it is.
pub open spec fn plain_upper(c: char) -> char {
    if 'a' <= c && c <= 'z' {
        ((c as u32) - 32) as char
    } else {
        c
    }
}

/// The lower-case form of an ASCII capital; any other character as it is.
pub open spec fn plain_lower(c: char) -> char {
    if 'A' <= c && c <= 'Z' {
        ((c as u32) + 32) as char
    } else {
        c
    }
}

/// `char::to_uppercase`, collected into a vector. The contract names the
/// result as `char_upper(c)` and states the case std documents without its
/// Unicode tables: a lower-case ASCII letter becomes its capital, and any
/// other ASCII character, like the em dash, which has no upper-case
/// mapping, comes back as it is. The mapping of other characters is left
/// to the Unicode tables of std.
#[verifier::external_body]
fn uppercase_of(c: char) -> (r: Vec<char>)
    ensures
        r@ == char_upper(c),
        plain_cased(c) ==> r@ == seq![plain_upper(c)],
{
    c.to_uppercase().collect()
}

/// `char::to_lowercase`, collected into a vector. The contract names the
/// result as `char_lower(c)` and states the case std documents without its
/// Unicode tables: a capital ASCII letter becomes lower-case, and any other
/// ASCII character, like the em dash, which has no lower-case mapping,
/// comes back as it is. The mapping of other characters is left to the
/// Unicode tables of std.
#[verifier::external_body]
fn lowercase_of(c: char) -> (r: Vec<char>)
    ensures
        r@ == char_lower(c),
        plain_cased(c) ==> r@ == seq![plain_lower(c)],
{
    c.to_lowercase().collect()
}

/// Every character of `s` lower-cased.
pub open spec fn lower_all(s: Seq<char>) -> Seq<char>
    decreases s.len(),
{
    if s.len() == 0 {
        seq![]
    } else {
        lower_all(s.drop_last()) + char_lower(s.last())
    }
}

/// A word with its first character upper-cased and the rest lower-cased.
pub open spec fn capitalized(w: Seq<char>) -> Seq<char> {
    if w.len() == 0 {
        seq![]
    } else {
        char_upper(w[0]) + lower_all(w.drop_first())
    }
}

pub open spec fn word_step(st: (Seq<Seq<char>>, Seq<char>), c: char) -> (Seq<Seq<char>>, Seq<char>) {
    if is_space(c) {
        if st.1.len() > 0 {
            (st.0.push(st.1), seq![])
        } else {
            st
        }
    } else {
        (st.0, st.1.push(c))
    }
}

pub open spec fn word_scan(s: Seq<char>, n: nat) -> (Seq<Seq<char>>, Seq<char>)
    decreases n,
{
    if n == 0 {
        (seq![], seq![])
    } else {
        word_step(word_scan(s, (n - 1) as nat), s[n - 1])
    }
}

/// The whitespace-separated words of `s` (`str::split_whitespace`).
pub open spec fn words(s: Seq<char>) -> Seq<Seq<char>> {
    let st = word_scan(s, s.len());
    if st.1.len() > 0 {
        st.0.push(st.1)
    } else {
        st.0
    }
}

/// The words joined with single spaces.
pub open spec fn join_spaced(ws: Seq<Seq<char>>) -> Seq<char>
    decreases ws.len(),
{
    if ws.len() == 0 {
        seq![]
    } else if ws.len() == 1 {
        ws[0]
    } else {
        join_spaced(ws.drop_last()) + seq![' '] + ws.last()
    }
}

/// Title case: every word capitalized, words joined by one space.
pub open spec fn titlecase_spec(s: Seq<char>) -> Seq<char> {
    join_spaced(words(s).map_values(|w: Seq<char>| capitalized(w)))
}

/// `capitalized` for a word of plain-cased characters.
pub open spec fn plain_capitalized(w: Seq<char>) -> Seq<char> {
    if w.len() == 0 {
        seq![]
    } else {
        seq![plain_upper(w[0])] + w.drop_first().map_values(|c: char| plain_lower(c))
    }
}

/// `titlecase_spec` for a text of plain-cased characters.
pub open spec fn plain_titlecase(s: Seq<char>) -> Seq<char> {
    join_spaced(words(s).map_values(|w: Seq<char>| plain_capitalized(w)))
}

fn lower_all_exec(s: &Vec<char>, from: usize) -> (r: Vec<char>)
    requires
        from <= s.len(),
    ensures
        r@ == lower_all(s@.skip(from as int)),
        all_plain_cased(s@.skip(from as int)) ==> r@ == s@.skip(from as int).map_values(
            |c: char| plain_lower(c),
        ),
{
    let mut r: Vec<char> = Vec::new();
    let mut i = from;
    let ghost t = s@.skip(from as int);
    assert(t.take(0) =~= Seq::<char>::empty());
    assert(t.take(0).map_values(|c: char| plain_lower(c)) =~= Seq::<char>::empty());
    while i < s.len()
        invariant
            from <= i <= s.len(),
            t == s@.skip(from as int),
            r@ == lower_all(t.take(i - from)),
            all_plain_cased(t) ==> r@ == t.take(i - from).map_values(|c: char| plain_lower(c)),
        decreases s.len() - i,
    {
        let low = lowercase_of(s[i]);
        proof {
            assert(t.take(i - from + 1).drop_last() =~= t.take(i - from));
            assert(t.take(i - from + 1).last() == s@[i as int]);
            assert(t[i - from] == s@[i as int]);
            assert(t.take(i - from + 1).map_values(|c: char| plain_lower(c)) =~= t.take(
                i - from,
            ).map_values(|c: char| plain_lower(c)).push(plain_lower(s@[i as int])));
        }
        extend_chars(&mut r, &low);
        i = i + 1;
    }
    assert(t.take(i - from) =~= t);
    r
}

fn capitalized_exec(w: &Vec<char>) -> (r: Vec<char>)
    ensures
        r@ == capitalized(w@),
        all_plain_cased(w@) ==> r@ == plain_capitalized(w@),
{
    if w.len() == 0 {
        return Vec::new();
    }
    let mut r = uppercase_of(w[0]);
    let rest = lower_all_exec(w, 1);
    assert(w@.skip(1) =~= w@.drop_first());
    proof {
        if all_plain_cased(w@) {
            assert(plain_cased(w@[0]));
            assert forall|i: int| 0 <= i < w@.drop_first().len() implies plain_cased(
                #[trigger] w@.drop_first()[i],
            ) by {
                assert(w@.drop_first()[i] == w@[i + 1]);
            }
        }
    }
    extend_chars(&mut r, &rest);
    r
}

/// Capitalizes every word of `s` and joins the words with single spaces.
pub fn titlecase(s: &str) -> (r: String)
    ensures
        r@ == titlecase_spec(s@),
        all_plain_cased(s@) ==> r@ == plain_titlecase(s@),
{
    let v = to_chars(s);
    let mut ws: Vec<Vec<char>> = Vec::new();
    let mut cur: Vec<char> = Vec::new();
    let mut i: usize = 0;
    while i < v.len()
        invariant
            i <= v.len(),
            (seqs(ws@), cur@) == word_scan(v@, i as nat),
            all_plain_cased(v@) ==> all_plain_cased(cur@) && forall|m: int|
                0 <= m < ws@.len() ==> all_plain_cased(#[trigger] seqs(ws@)[m]),
        decreases v.len() - i,
    {
        proof {
            if all_plain_cased(v@) {
                assert(plain_cased(v@[i as int]));
            }
        }
        if is_space_char(v[i]) {
            if cur.len() > 0 {
                proof {
                    lemma_seqs_push(ws@, cur);
                }
                ws.push(cur);
                cur = Vec::new();
                assert(cur@ =~= Seq::<char>::empty());
            }
        } else {
            cur.push(v[i]);
        }
        i = i + 1;
    }
    if cur.len() > 0 {
        proof {
            lemma_seqs_push(ws@, cur);
        }
        ws.push(cur);
    }
    let ghost wv = seqs(ws@);
    assert(wv == words(s@));
    let ghost caps = wv.map_values(|w: Seq<char>| capitalized(w));
    let ghost pcaps = wv.map_values(|w: Seq<char>| plain_capitalized(w));
    let mut out: Vec<char> = Vec::new();
    let mut k: usize = 0;
    while k < ws.len()
        invariant
            k <= ws.len(),
            wv == seqs(ws@),
            caps == wv.map_values(|w: Seq<char>| capitalized(w)),
            pcaps == wv.map_values(|w: Seq<char>| plain_capitalized(w)),
            out@ == join_spaced(caps.take(k as int)),
            all_plain_cased(v@) ==> forall|m: int|
                0 <= m < wv.len() ==> all_plain_cased(#[trigger] wv[m]),
            all_plain_cased(v@) ==> out@ == join_spaced(pcaps.take(k as int)),
        decreases ws.len() - k,
    {
        let c = capitalized_exec(&ws[k]);
        proof {
            assert(wv[k as int] == ws@[k as int]@);
        }
        if k > 0 {
            out.push(' ');
        }
        extend_chars(&mut out, &c);
        proof {
            assert(caps.take(k + 1).drop_last() =~= caps.take(k as int));
            assert(caps.take(k + 1).last() == c@);
            assert(pcaps.take(k + 1).drop_last() =~= pcaps.take(k as int));
            if k == 0 {
                assert(out@ =~= caps.take(1)[0]);
                if all_plain_cased(v@) {
                    assert(out@ =~= pcaps.take(1)[0]);
                }
            }
            if all_plain_cased(v@) {
                assert(pcaps.take(k + 1).last() == c@);
            }
        }
        k = k + 1;
    }
    assert(caps.take(k as int) =~= caps);
    assert(pcaps.take(k as int) =~= pcaps);
    to_string(&out)
}

/// `s` without any number of trailing `".md"` (`trim_end_matches(".md")`).
pub open spec fn strip_md_suffixes(s: Seq<char>) -> Seq<char>
    decreases s.len(),
{
    if s.len() >= 3 && has_suffix(s, ".md"@) {
        strip_md_suffixes(s.take(s.len() - 3))
    } else {
        s
    }
}

/// `s` with every `c` replaced by `r`.
pub open spec fn replace_char(s: Seq<char>, c: char, r: Seq<char>) -> Seq<char>
    decreases s.len(),
{
    if s.len() == 0 {
        seq![]
    } else {
        replace_char(s.drop_last(), c, r) + if s.last() == c {
            r
        } else {
            seq![s.last()]
        }
    }
}

fn replace_char_exec(s: &Vec<char>, c: char, r: &Vec<char>) -> (out: Vec<char>)
    ensures
        out@ == replace_char(s@, c, r@),
{
    let mut out: Vec<char> = Vec::new();
    let mut i: usize = 0;
    while i < s.len()
        invariant
            i <= s.len(),
            out@ == replace_char(s@.take(i as int), c, r@),
        decreases s.len() - i,
    {
        if s[i] == c {
            extend_chars(&mut out, r);
        } else {
            out.push(s[i]);
        }
        proof {
            assert(s@.take(i + 1).drop_last() =~= s@.take(i as int));
            assert(s@.take(i + 1).last() == s@[i as int]);
        }
        i = i + 1;
    }
    assert(s@.take(i as int) =~= s@);
    out
}

/// The title of a new fact file: its path without `.md`, dashes as spaces,
/// slashes as `" — "`, in title case.
pub open spec fn fact_file_title(rel_path: Seq<char>) -> Seq<char> {
    titlecase_spec(replace_char(replace_char(strip_md_suffixes(rel_path), '-', " "@), '/', " — "@))
}

/// `fact_file_title` for a path of plain-cased characters.
pub open spec fn plain_fact_file_title(rel_path: Seq<char>) -> Seq<char> {
    plain_titlecase(replace_char(replace_char(strip_md_suffixes(rel_path), '-', " "@), '/', " — "@))
}

proof fn lemma_strip_md_plain(s: Seq<char>)
    requires
        all_plain_cased(s),
    ensures
        all_plain_cased(strip_md_suffixes(s)),
    decreases s.len(),
{
    if s.len() >= 3 && has_suffix(s, ".md"@) {
        let t = s.take(s.len() - 3);
        assert forall|i: int| 0 <= i < t.len() implies plain_cased(#[trigger] t[i]) by {
            assert(t[i] == s[i]);
        }
        lemma_strip_md_plain(t);
    }
}

proof fn lemma_replace_plain(s: Seq<char>, c: char, r: Seq<char>)
    requires
        all_plain_cased(s),
        all_plain_cased(r),
    ensures
        all_plain_cased(replace_char(s, c, r)),
    decreases s.len(),
{
    if s.len() > 0 {
        let d = s.drop_last();
        assert forall|i: int| 0 <= i < d.len() implies plain_cased(#[trigger] d[i]) by {
            assert(d[i] == s[i]);
        }
        lemma_replace_plain(d, c, r);
        assert(plain_cased(s[s.len() - 1]));
        let head = replace_char(d, c, r);
        let tail = if s.last() == c {
            r
        } else {
            seq![s.last()]
        };
        assert forall|i: int| 0 <= i < (head + tail).len() implies plain_cased(
            #[trigger] (head + tail)[i],
        ) by {
            if i >= head.len() {
                assert((head + tail)[i] == tail[i - head.len()]);
            } else {
                assert((head + tail)[i] == head[i]);
            }
        }
    }
}

/// The text of a new file created by `add_fact`.
pub open spec fn new_fact_file_text(rel_path: Seq<char>, section: Seq<char>, bullet: Seq<char>) -> Seq<
    char,
> {
    "# "@ + fact_file_title(rel_path) + "\n\n"@ + section + "\n"@ + bullet + "\n"@
}

pub fn new_fact_file(rel_path: &str, section: &str, bullet: &str) -> (r: String)
    ensures
        r@ == new_fact_file_text(rel_path@, section@, bullet@),
        all_plain_cased(rel_path@) ==> fact_file_title(rel_path@) == plain_fact_file_title(
            rel_path@,
        ),
{
    let mut p = to_chars(rel_path);
    let md = to_chars(".md");
    while p.len() >= 3 && ends_with_chars(&p, &md)
        invariant
            md@ == ".md"@,
            strip_md_suffixes(rel_path@) == strip_md_suffixes(p@),
        decreases p.len(),
    {
        let n = p.len() - 3;
        p = slice_chars(&p, 0, n);
    }
    let dashed = replace_char_exec(&p, '-', &to_chars(" "));
    let slashed = replace_char_exec(&dashed, '/', &to_chars(" — "));
    proof {
        if all_plain_cased(rel_path@) {
            reveal_strlit(" ");
            reveal_strlit(" — ");
            lemma_strip_md_plain(rel_path@);
            lemma_replace_plain(strip_md_suffixes(rel_path@), '-', " "@);
            lemma_replace_plain(
                replace_char(strip_md_suffixes(rel_path@), '-', " "@),
                '/',
                " — "@,
            );
        }
    }
    let title = titlecase(to_string(&slashed).as_str());
    let mut out = to_chars("# ");
    extend_chars(&mut out, &to_chars(title.as_str()));
    extend_chars(&mut out, &to_chars("\n\n"));
    extend_chars(&mut out, &to_chars(section));
    extend_chars(&mut out, &to_chars("\n"));
    extend_chars(&mut out, &to_chars(bullet));
    extend_chars(&mut out, &to_chars("\n"));
    assert(out@ =~= new_fact_file_text(rel_path@, section@, bullet@));
    to_string(&out)
}

/// What a file holds after `add_fact`: a new file when there was none, else
/// the old text with the bullet added under the section.
pub open spec fn fact_file_text_spec(
    existing: Option<Seq<char>>,
    rel_path: Seq<char>,
    section: Seq<char>,
    fact: Seq<char>,
) -> Seq<char> {
    match existing {
        None => new_fact_file_text(rel_path, section, fact_bullet(fact)),
        Some(t) => text_with_fact(t, section, fact_bullet(fact)),
    }
}

pub fn fact_file_text(existing: Option<&str>, rel_path: &str, section: &str, fact: &str) -> (r:
    String)
    ensures
        r@ == fact_file_text_spec(opt_view(existing), rel_path@, section@, fact@),
{
    let bullet = bullet_for(fact);
    match existing {
        None => new_fact_file(rel_path, section, bullet.as_str()),
        Some(t) => insert_fact(t, section, bullet.as_str()),
    }
}

// ---------------------------------------------------------------------------
// Laws
// ---------------------------------------------------------------------------

/// A write that is not an append leaves exactly the written content, so a
/// read afterwards gives back what was written.
pub proof fn law_write_then_read(existing: Option<Seq<char>>, content: Seq<char>)
    ensures
        text_after_write(existing, content, false) == content,
{
}

/// An append keeps the old text in front, then at most one added line
/// break, then the appended content.
pub proof fn law_append_keeps_old_text(e: Seq<char>, content: Seq<char>)
    ensures
        has_prefix(text_after_write(Some(e), content, true), e),
        has_suffix(text_after_write(Some(e), content, true), content),
        text_after_write(Some(e), content, true).len() <= e.len() + 1 + content.len(),
        has_suffix(e, "\n"@) ==> text_after_write(Some(e), content, true) == e + content,
{
    reveal_strlit("\n");
    let r = text_after_write(Some(e), content, true);
    assert(r.take(e.len() as int) =~= e);
    assert(r.skip(r.len() - content.len()) =~= content);
}

/// When the section exists, `add_fact` inserts the bullet as one new line
/// after the section's heading and before the next h1-h3 heading, and every
/// other line stays, in order.
pub proof fn law_fact_lands_in_section(ls: Seq<Seq<char>>, section: Seq<char>, bullet: Seq<char>)
    requires
        find_section_from(ls, trim(section), 0) >= 0,
    ensures
        ({
            let idx = find_section_from(ls, trim(section), 0);
            let pos = fact_position(ls, idx);
            &&& trim(ls[idx]) == trim(section)
            &&& idx < pos <= ls.len()
            &&& lines_with_fact(ls, section, bullet) == ls.insert(pos, bullet)
            &&& forall|m: int| idx < m < pos ==> !is_section_break(#[trigger] ls[m])
        }),
{
    let idx = find_section_from(ls, trim(section), 0);
    lemma_find_section(ls, trim(section), 0);
    lemma_found_section(ls, trim(section), 0);
    lemma_section_end(ls, idx + 1);
    lemma_back_over_blanks(ls, idx + 1, section_end_from(ls, idx + 1));
}

/// `is_section_break` on the characters of a line: it starts with `'#'`
/// and not with four of them.
proof fn lemma_section_break_chars(l: Seq<char>)
    ensures
        is_section_break(l) <==> (l.len() > 0 && l[0] == '#' && !(l.len() >= 4 && l[1] == '#'
            && l[2] == '#' && l[3] == '#')),
{
    reveal_strlit("#");
    reveal_strlit("####");
    if l.len() > 0 && l[0] == '#' {
        assert(l.take(1) =~= "#"@);
    }
    if l.len() >= 4 && l[0] == '#' && l[1] == '#' && l[2] == '#' && l[3] == '#' {
        assert(l.take(4) =~= "####"@);
    }
    if has_prefix(l, "####"@) {
        assert(l.take(4)[1] == l[1] && l.take(4)[2] == l[2] && l.take(4)[3] == l[3]);
    }
    if has_prefix(l, "#"@) {
        assert(l.take(1)[0] == l[0]);
    }
}

/// Where a fact goes in an existing section, read on the characters of the
/// lines: after the heading line `idx`, with no h1, h2 or h3 heading (a
/// line starting with `'#'` but not with `"####"`) between the heading and
/// the bullet; the bullet follows the section's last non-blank line, and
/// only blank lines stand between it and the end of the section, which is
/// the next h1-h3 heading or the end of the file.
pub proof fn law_fact_position_by_headings(ls: Seq<Seq<char>>, section: Seq<char>, bullet: Seq<char>)
    requires
        find_section_from(ls, trim(section), 0) >= 0,
    ensures
        ({
            let idx = find_section_from(ls, trim(section), 0);
            let pos = fact_position(ls, idx);
            &&& idx < pos <= ls.len()
            &&& lines_with_fact(ls, section, bullet) == ls.insert(pos, bullet)
            &&& forall|m: int|
                idx < m < pos ==> !(#[trigger] ls[m].len() > 0 && ls[m][0] == '#' && !(
                ls[m].len() >= 4 && ls[m][1] == '#' && ls[m][2] == '#' && ls[m][3] == '#'))
            &&& pos > idx + 1 ==> trim(ls[pos - 1]).len() > 0
            &&& exists|e: int|
                pos <= e <= ls.len() && (e == ls.len() || (ls[e].len() > 0 && ls[e][0] == '#'
                    && !(ls[e].len() >= 4 && ls[e][1] == '#' && ls[e][2] == '#' && ls[e][3]
                    == '#'))) && (forall|m: int| pos <= m < e ==> trim(#[trigger] ls[m]).len()
                    == 0) && (forall|m: int|
                    idx < m < e ==> !(#[trigger] ls[m].len() > 0 && ls[m][0] == '#' && !(
                    ls[m].len() >= 4 && ls[m][1] == '#' && ls[m][2] == '#' && ls[m][3] == '#')))
        }),
{
    let idx = find_section_from(ls, trim(section), 0);
    law_fact_lands_in_section(ls, section, bullet);
    lemma_find_section(ls, trim(section), 0);
    let e = section_end_from(ls, idx + 1);
    lemma_section_end(ls, idx + 1);
    lemma_back_over_blanks(ls, idx + 1, e);
    let pos = fact_position(ls, idx);
    assert forall|m: int| idx < m < e implies !(#[trigger] ls[m].len() > 0 && ls[m][0] == '#'
        && !(ls[m].len() >= 4 && ls[m][1] == '#' && ls[m][2] == '#' && ls[m][3] == '#')) by {
        lemma_section_break_chars(ls[m]);
    }
    if e < ls.len() {
        lemma_section_break_chars(ls[e]);
    }
    assert forall|m: int| pos <= m < e implies trim(#[trigger] ls[m]).len() == 0 by {
        assert(is_blank(ls[m]));
    }
}

/// `check_write_path` accepts exactly the paths that, trimmed, are longer
/// than `".md"`, end in `".md"`, hold before it nothing but ASCII letters of
/// either case, digits, `'_'`, `'-'` and `'/'`, do not start with `'/'`,
/// and hold no `".."`.
pub proof fn law_write_path_rule(s: Seq<char>)
    ensures
        write_path_ok(s) <==> {
            &&& s.len() > 3
            &&& s[s.len() - 3] == '.' && s[s.len() - 2] == 'm' && s[s.len() - 1] == 'd'
            &&& forall|i: int|
                0 <= i < s.len() - 3 ==> {
                    let c = #[trigger] s[i];
                    ('a' <= c && c <= 'z') || ('A' <= c && c <= 'Z') || ('0' <= c && c <= '9')
                        || c == '_' || c == '-' || c == '/'
                }
            &&& s[0] != '/'
            &&& forall|j: int| 0 <= j < s.len() - 1 ==> !(#[trigger] s[j] == '.' && s[j + 1] == '.')
        },
{
    reveal_strlit(".md");
    reveal_strlit("/");
    reveal_strlit("..");
    if s.len() > 3 {
        let t = s.skip(s.len() - 3);
        if s[s.len() - 3] == '.' && s[s.len() - 2] == 'm' && s[s.len() - 1] == 'd' {
            assert(t =~= ".md"@);
        }
        if has_suffix(s, ".md"@) {
            assert(t[0] == s[s.len() - 3] && t[1] == s[s.len() - 2] && t[2] == s[s.len() - 1]);
        }
        if s[0] == '/' {
            assert(s.take(1) =~= "/"@);
        }
        if has_prefix(s, "/"@) {
            assert(s.take(1)[0] == s[0]);
        }
        if contains_seq(s, ".."@) {
            let j = choose|j: int| crate::text::occurs_at(s, ".."@, j);
            assert(s.subrange(j, j + 2)[0] == s[j] && s.subrange(j, j + 2)[1] == s[j + 1]);
        }
        if exists|j: int| 0 <= j < s.len() - 1 && #[trigger] s[j] == '.' && s[j + 1] == '.' {
            let j = choose|j: int| 0 <= j < s.len() - 1 && #[trigger] s[j] == '.' && s[j + 1] == '.';
            assert(s.subrange(j, j + 2) =~= ".."@);
            assert(crate::text::occurs_at(s, ".."@, j));
        }
    }
}

/// Read back as text: when the fact holds no line break (and, where the
/// section is missing and gets added, neither does the section), the new
/// text split at its line breaks is the old text's lines with the bullet
/// added as one line of its own: inserted at `fact_position` under an
/// existing section, every other line unchanged and in order; otherwise
/// appended after the old lines as `lines_with_fact` says.
pub proof fn law_fact_text_lines(
    text: Seq<char>,
    rel_path: Seq<char>,
    section: Seq<char>,
    fact: Seq<char>,
)
    requires
        no_newline(fact),
        find_section_from(newline_pieces(text), trim(section), 0) < 0 ==> no_newline(section),
    ensures
        ({
            let ls = newline_pieces(text);
            let idx = find_section_from(ls, trim(section), 0);
            let b = fact_bullet(fact);
            let r = newline_pieces(fact_file_text_spec(Some(text), rel_path, section, fact));
            &&& no_newline(b)
            &&& idx >= 0 ==> r == ls.insert(fact_position(ls, idx), b)
            &&& idx < 0 ==> r == lines_with_fact(ls, section, b)
        }),
{
    let ls = newline_pieces(text);
    let idx = find_section_from(ls, trim(section), 0);
    let b = fact_bullet(fact);
    reveal_strlit("- ");
    assert forall|j: int| 0 <= j < b.len() implies #[trigger] b[j] != '\n' by {
        if !has_prefix(fact, "- "@) {
            if j >= 2 {
                assert(b[j] == fact[j - 2]);
            }
        }
    }
    lemma_pieces_no_newline(text);
    let r = lines_with_fact(ls, section, b);
    if idx >= 0 {
        law_fact_lands_in_section(ls, section, b);
        let pos = fact_position(ls, idx);
        assert forall|i: int| 0 <= i < r.len() implies no_newline(#[trigger] r[i]) by {
            if i < pos {
                assert(r[i] == ls[i]);
            } else if i > pos {
                assert(r[i] == ls[i - 1]);
            }
        }
    } else {
        let padded = if ls.len() > 0 && ls.last().len() > 0 {
            ls.push(seq![])
        } else {
            ls
        };
        assert(no_newline(Seq::<char>::empty()));
        assert forall|i: int| 0 <= i < r.len() implies no_newline(#[trigger] r[i]) by {
            if i < ls.len() {
                assert(r[i] == ls[i]);
            } else if i == r.len() - 1 {
                assert(r[i] == b);
            } else if i == r.len() - 2 {
                assert(r[i] == section);
            } else {
                assert(r[i] == Seq::<char>::empty());
            }
        }
    }
    lemma_pieces_of_join(r);
}

proof fn lemma_found_section(ls: Seq<Seq<char>>, target: Seq<char>, i: int)
    requires
        0 <= i <= ls.len(),
        find_section_from(ls, target, i) >= 0,
    ensures
        trim(ls[find_section_from(ls, target, i)]) == target,
    decreases ls.len() - i,
{
    if i < ls.len() && trim(ls[i]) != target {
        lemma_found_section(ls, target, i + 1);
    }
}

/// When the section is missing, `add_fact` appends a blank line, the section
/// heading and the bullet at the end, after the old lines.
pub proof fn law_missing_section_appended(ls: Seq<Seq<char>>, section: Seq<char>, bullet: Seq<char>)
    requires
        find_section_from(ls, trim(section), 0) < 0,
    ensures
        ({
            let r = lines_with_fact(ls, section, bullet);
            &&& r.len() >= ls.len() + 3
            &&& r.take(ls.len() as int) == ls
            &&& r.last() == bullet
            &&& r[r.len() - 2] == section
            &&& r[r.len() - 3].len() == 0
        }),
{
    let r = lines_with_fact(ls, section, bullet);
    assert(r.take(ls.len() as int) =~= ls);
}

} // verus!
