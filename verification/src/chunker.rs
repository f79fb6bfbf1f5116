//! Markdown chunker.
//!
//! Splits a document by h1-h4 headings into `Chunk` records; sections longer
//! than `MAX_CHUNK_CHARS` bytes are further subdivided by paragraph grouping.

use vstd::prelude::*;
use crate::text::{
    is_space, lemma_join_prepend, lemma_lines_no_newline, lemma_pieces_of_join, lemma_trim_len,
    newline_pieces, no_newline, trim_start, is_blank, is_blank_chars, join_chars, join_lines, lemma_seqs_push,
    lemma_utf8_len_add, lemma_utf8_len_push, lines, newline_pos, seqs, slice_chars,
    split_lines, strip_cr, to_chars, decimal, utf8_len_at_most, to_string, trim, trim_chars, utf8_len, char_width_of,
    char_width,
};

verus! {

broadcast use vstd::seq_lib::group_seq_properties;

/// Soft cap on chunk size, measured in UTF-8 bytes.
pub const MAX_CHUNK_CHARS: usize = 800;

// ---------------------------------------------------------------------------
// Costs: a line costs its UTF-8 length plus one for its line break.
// ---------------------------------------------------------------------------

pub open spec fn line_cost(l: Seq<char>) -> nat {
    utf8_len(l) + 1
}

pub open spec fn lines_cost(ls: Seq<Seq<char>>) -> nat
    decreases ls.len(),
{
    if ls.len() == 0 {
        0
    } else {
        lines_cost(ls.drop_last()) + line_cost(ls.last())
    }
}

/// The lines of a sequence of line groups, in order.
pub open spec fn concat(gs: Seq<Seq<Seq<char>>>) -> Seq<Seq<char>>
    decreases gs.len(),
{
    if gs.len() == 0 {
        seq![]
    } else {
        concat(gs.drop_last()) + gs.last()
    }
}

/// The views of a vector of line groups.
pub open spec fn groups_view(v: Seq<Vec<Vec<char>>>) -> Seq<Seq<Seq<char>>> {
    v.map_values(|g: Vec<Vec<char>>| seqs(g@))
}

/// The lines that are not blank, in order.
pub open spec fn nonblank_lines(ls: Seq<Seq<char>>) -> Seq<Seq<char>> {
    ls.filter(|l: Seq<char>| !is_blank(l))
}

/// The non-empty texts, in order.
pub open spec fn nonempty_texts(cs: Seq<Seq<char>>) -> Seq<Seq<char>> {
    cs.filter(|c: Seq<char>| c.len() > 0)
}

/// A group of lines as one text: joined with `'\n'`, then trimmed.
pub open spec fn trimmed_join(g: Seq<Seq<char>>) -> Seq<char> {
    trim(join_lines(g))
}

pub open spec fn trimmed_joins(gs: Seq<Seq<Seq<char>>>) -> Seq<Seq<char>> {
    gs.map_values(|g: Seq<Seq<char>>| trimmed_join(g))
}

// ---------------------------------------------------------------------------
// Paragraphs: maximal runs of non-blank lines.
// ---------------------------------------------------------------------------

pub open spec fn paragraph_step(
    st: (Seq<Seq<Seq<char>>>, Seq<Seq<char>>),
    line: Seq<char>,
) -> (Seq<Seq<Seq<char>>>, Seq<Seq<char>>) {
    if is_blank(line) {
        if st.1.len() > 0 {
            (st.0.push(st.1), seq![])
        } else {
            st
        }
    } else {
        (st.0, st.1.push(line))
    }
}

/// Paragraphs closed, and the paragraph still open, after the first `n` lines.
pub open spec fn paragraph_scan(ls: Seq<Seq<char>>, n: nat) -> (
    Seq<Seq<Seq<char>>>,
    Seq<Seq<char>>,
)
    decreases n,
{
    if n == 0 {
        (seq![], seq![])
    } else {
        paragraph_step(paragraph_scan(ls, (n - 1) as nat), ls[n - 1])
    }
}

pub open spec fn paragraphs(ls: Seq<Seq<char>>) -> Seq<Seq<Seq<char>>> {
    let st = paragraph_scan(ls, ls.len());
    if st.1.len() > 0 {
        st.0.push(st.1)
    } else {
        st.0
    }
}

// ---------------------------------------------------------------------------
// Packing paragraphs into groups.
// ---------------------------------------------------------------------------

/// How many leading lines of `b` the hard split takes: lines are taken while
/// the cost taken so far is below `budget`.
pub open spec fn take_len(b: Seq<Seq<char>>, budget: int) -> nat
    decreases b.len(),
{
    if b.len() == 0 {
        0
    } else if line_cost(b[0]) >= budget {
        1
    } else {
        1 + take_len(b.drop_first(), budget - line_cost(b[0]))
    }
}

pub proof fn lemma_take_len_bounds(b: Seq<Seq<char>>, budget: int)
    ensures
        take_len(b, budget) <= b.len(),
        b.len() > 0 ==> take_len(b, budget) >= 1,
    decreases b.len(),
{
    if b.len() > 0 {
        lemma_take_len_bounds(b.drop_first(), budget - line_cost(b[0]));
    }
}

/// While the buffer costs more than twice `max`, its leading lines are cut
/// off into a group of their own.
pub open spec fn hard_split(gs: Seq<Seq<Seq<char>>>, b: Seq<Seq<char>>, max: nat) -> (
    Seq<Seq<Seq<char>>>,
    Seq<Seq<char>>,
)
    decreases b.len(),
{
    if max > 0 && lines_cost(b) > 2 * max && b.len() > 0 {
        let k = take_len(b, max as int);
        proof {
            lemma_take_len_bounds(b, max as int);
        }
        hard_split(gs.push(b.take(k as int)), b.skip(k as int), max)
    } else {
        (gs, b)
    }
}

/// One paragraph added to the packing state: the buffer is closed first when
/// the paragraph would take it past `max`.
pub open spec fn pack_step(
    st: (Seq<Seq<Seq<char>>>, Seq<Seq<char>>),
    para: Seq<Seq<char>>,
    max: nat,
) -> (Seq<Seq<Seq<char>>>, Seq<Seq<char>>) {
    let flushed = if st.1.len() > 0 && lines_cost(st.1) + lines_cost(para) > max {
        (st.0.push(st.1), Seq::<Seq<char>>::empty())
    } else {
        st
    };
    hard_split(flushed.0, flushed.1 + para, max)
}

pub open spec fn pack_scan(ps: Seq<Seq<Seq<char>>>, n: nat, max: nat) -> (
    Seq<Seq<Seq<char>>>,
    Seq<Seq<char>>,
)
    decreases n,
{
    if n == 0 {
        (seq![], seq![])
    } else {
        pack_step(pack_scan(ps, (n - 1) as nat, max), ps[n - 1], max)
    }
}

/// The line groups into which `split_by_paragraphs` cuts a text.
pub open spec fn paragraph_groups(text: Seq<char>, max: nat) -> Seq<Seq<Seq<char>>> {
    let ps = paragraphs(lines(text));
    let st = pack_scan(ps, ps.len(), max);
    if st.1.len() > 0 {
        st.0.push(st.1)
    } else {
        st.0
    }
}

/// What `split_by_paragraphs(text, max)` returns.
pub open spec fn split_by_paragraphs_spec(text: Seq<char>, max: nat) -> Seq<Seq<char>> {
    nonempty_texts(trimmed_joins(paragraph_groups(text, max)))
}

// ---------------------------------------------------------------------------
// Lemmas on costs and concatenation.
// ---------------------------------------------------------------------------

pub proof fn lemma_lines_cost_add(a: Seq<Seq<char>>, b: Seq<Seq<char>>)
    ensures
        lines_cost(a + b) == lines_cost(a) + lines_cost(b),
    decreases b.len(),
{
    if b.len() > 0 {
        assert((a + b).drop_last() =~= a + b.drop_last());
        lemma_lines_cost_add(a, b.drop_last());
    } else {
        assert(a + b =~= a);
    }
}

pub proof fn lemma_lines_cost_push(a: Seq<Seq<char>>, l: Seq<char>)
    ensures
        lines_cost(a.push(l)) == lines_cost(a) + line_cost(l),
{
    assert(a.push(l).drop_last() =~= a);
}

proof fn lemma_lines_cost_take(a: Seq<Seq<char>>, i: int)
    requires
        0 <= i <= a.len(),
    ensures
        lines_cost(a.take(i)) <= lines_cost(a),
{
    lemma_lines_cost_add(a.take(i), a.skip(i));
    assert(a.take(i) + a.skip(i) =~= a);
}

pub proof fn lemma_concat_push(gs: Seq<Seq<Seq<char>>>, g: Seq<Seq<char>>)
    ensures
        concat(gs.push(g)) == concat(gs) + g,
{
    assert(gs.push(g).drop_last() =~= gs);
}

pub proof fn lemma_concat_add(a: Seq<Seq<Seq<char>>>, b: Seq<Seq<Seq<char>>>)
    ensures
        concat(a + b) == concat(a) + concat(b),
    decreases b.len(),
{
    if b.len() > 0 {
        assert((a + b).drop_last() =~= a + b.drop_last());
        lemma_concat_add(a, b.drop_last());
        assert(concat(a) + concat(b.drop_last()) + b.last() =~= concat(a) + (concat(
            b.drop_last(),
        ) + b.last()));
    } else {
        assert(a + b =~= a);
        assert(concat(a) + seq![] =~= concat(a));
    }
}

proof fn lemma_concat_take(gs: Seq<Seq<Seq<char>>>, i: int)
    requires
        0 <= i <= gs.len(),
    ensures
        lines_cost(concat(gs.take(i))) <= lines_cost(concat(gs)),
{
    lemma_concat_add(gs.take(i), gs.skip(i));
    assert(gs.take(i) + gs.skip(i) =~= gs);
    lemma_lines_cost_add(concat(gs.take(i)), concat(gs.skip(i)));
}

proof fn lemma_filter_cost(ls: Seq<Seq<char>>)
    ensures
        lines_cost(nonblank_lines(ls)) <= lines_cost(ls),
    decreases ls.len(),
{
    if ls.len() > 0 {
        let p = |l: Seq<char>| !is_blank(l);
        lemma_filter_cost(ls.drop_last());
        assert(ls.drop_last().push(ls.last()) =~= ls);
        ls.drop_last().lemma_filter_push(ls.last(), p);
        if p(ls.last()) {
            lemma_lines_cost_push(nonblank_lines(ls.drop_last()), ls.last());
        }
    }
}

proof fn lemma_utf8_len_take(s: Seq<char>, i: int)
    requires
        0 <= i <= s.len(),
    ensures
        utf8_len(s.take(i)) <= utf8_len(s),
        utf8_len(s.take(i)) + utf8_len(s.skip(i)) == utf8_len(s),
{
    lemma_utf8_len_add(s.take(i), s.skip(i));
    assert(s.take(i) + s.skip(i) =~= s);
}

proof fn lemma_strip_cr_len(s: Seq<char>)
    ensures
        utf8_len(strip_cr(s)) <= utf8_len(s),
{
    if s.len() > 0 && s.last() == '\r' {
        lemma_utf8_len_push(s.drop_last(), s.last());
        assert(s.drop_last().push(s.last()) =~= s);
    }
}


/// The lines of a text cost at most its length plus one.
pub proof fn lemma_lines_cost_bound(s: Seq<char>)
    ensures
        lines_cost(lines(s)) <= utf8_len(s) + 1,
    decreases s.len(),
{
    if s.len() > 0 {
        let k = newline_pos(s);
        crate::text::lemma_newline_pos_bounds(s);
        if k < s.len() {
            let rest = s.skip((k + 1) as int);
            lemma_lines_cost_bound(rest);
            lemma_lines_cost_add(seq![strip_cr(s.take(k as int))], lines(rest));
            lemma_lines_cost_push(Seq::<Seq<char>>::empty(), strip_cr(s.take(k as int)));
            assert(Seq::<Seq<char>>::empty().push(strip_cr(s.take(k as int))) =~= seq![
                strip_cr(s.take(k as int)),
            ]);
            lemma_strip_cr_len(s.take(k as int));
            lemma_utf8_len_take(s, k as int);
            let t = s.skip(k as int);
            lemma_utf8_len_take(t, 1);
            assert(t.take(1) =~= seq!['\n']);
            assert(t.skip(1) =~= rest);
            lemma_utf8_len_push(Seq::<char>::empty(), '\n');
            assert(Seq::<char>::empty().push('\n') =~= seq!['\n']);
        } else {
            lemma_lines_cost_push(Seq::<Seq<char>>::empty(), s);
            assert(Seq::<Seq<char>>::empty().push(s) =~= seq![s]);
        }
    }
}

// ---------------------------------------------------------------------------
// Lemmas on paragraphs and packing: no non-blank line is lost.
// ---------------------------------------------------------------------------

proof fn lemma_paragraph_scan(ls: Seq<Seq<char>>, n: nat)
    requires
        n <= ls.len(),
    ensures
        concat(paragraph_scan(ls, n).0) + paragraph_scan(ls, n).1 == nonblank_lines(ls.take(
            n as int,
        )),
        forall|i: int|
            0 <= i < paragraph_scan(ls, n).0.len() ==> #[trigger] paragraph_scan(ls, n).0[i].len()
                > 0,
    decreases n,
{
    let p = |l: Seq<char>| !is_blank(l);
    if n == 0 {
        assert(ls.take(0) =~= Seq::<Seq<char>>::empty());
        assert(concat(Seq::<Seq<Seq<char>>>::empty()) + Seq::<Seq<char>>::empty() =~= seq![]);
    } else {
        let prev = paragraph_scan(ls, (n - 1) as nat);
        lemma_paragraph_scan(ls, (n - 1) as nat);
        let line = ls[n - 1];
        assert(ls.take(n - 1).push(line) =~= ls.take(n as int));
        ls.take(n - 1).lemma_filter_push(line, p);
        if is_blank(line) {
            if prev.1.len() > 0 {
                lemma_concat_push(prev.0, prev.1);
                assert(concat(prev.0.push(prev.1)) + Seq::<Seq<char>>::empty() =~= concat(prev.0)
                    + prev.1);
            }
        } else {
            assert(concat(prev.0) + prev.1.push(line) =~= (concat(prev.0) + prev.1).push(line));
        }
    }
}

/// The paragraphs of a sequence of lines hold exactly its non-blank lines, in
/// order, and none of them is empty.
pub proof fn lemma_paragraphs(ls: Seq<Seq<char>>)
    ensures
        concat(paragraphs(ls)) == nonblank_lines(ls),
        forall|i: int| 0 <= i < paragraphs(ls).len() ==> #[trigger] paragraphs(ls)[i].len() > 0,
{
    lemma_paragraph_scan(ls, ls.len());
    assert(ls.take(ls.len() as int) =~= ls);
    let st = paragraph_scan(ls, ls.len());
    if st.1.len() > 0 {
        lemma_concat_push(st.0, st.1);
    } else {
        assert(concat(st.0) + st.1 =~= concat(st.0));
    }
}

proof fn lemma_hard_split(gs: Seq<Seq<Seq<char>>>, b: Seq<Seq<char>>, max: nat)
    ensures
        concat(hard_split(gs, b, max).0) + hard_split(gs, b, max).1 == concat(gs) + b,
    decreases b.len(),
{
    if max > 0 && lines_cost(b) > 2 * max && b.len() > 0 {
        let k = take_len(b, max as int);
        lemma_take_len_bounds(b, max as int);
        lemma_hard_split(gs.push(b.take(k as int)), b.skip(k as int), max);
        lemma_concat_push(gs, b.take(k as int));
        assert(concat(gs) + b.take(k as int) + b.skip(k as int) =~= concat(gs) + b);
    }
}

proof fn lemma_pack_scan(ps: Seq<Seq<Seq<char>>>, n: nat, max: nat)
    requires
        n <= ps.len(),
    ensures
        concat(pack_scan(ps, n, max).0) + pack_scan(ps, n, max).1 == concat(ps.take(n as int)),
    decreases n,
{
    if n == 0 {
        assert(ps.take(0) =~= Seq::<Seq<Seq<char>>>::empty());
        assert(concat(Seq::<Seq<Seq<char>>>::empty()) + Seq::<Seq<char>>::empty() =~= seq![]);
    } else {
        let prev = pack_scan(ps, (n - 1) as nat, max);
        lemma_pack_scan(ps, (n - 1) as nat, max);
        let para = ps[n - 1];
        let flushed = if prev.1.len() > 0 && lines_cost(prev.1) + lines_cost(para) > max {
            (prev.0.push(prev.1), Seq::<Seq<char>>::empty())
        } else {
            prev
        };
        lemma_concat_push(prev.0, prev.1);
        assert(concat(flushed.0) + flushed.1 =~= concat(prev.0) + prev.1);
        lemma_hard_split(flushed.0, flushed.1 + para, max);
        assert(ps.take(n as int).drop_last() =~= ps.take(n - 1));
        assert(concat(flushed.0) + (flushed.1 + para) =~= concat(flushed.0) + flushed.1 + para);
    }
}

/// `split_by_paragraphs` keeps every non-blank line of the text, in order,
/// and nothing else: its groups, laid end to end, are the non-blank lines.
pub proof fn law_split_keeps_nonblank_lines(text: Seq<char>, max: nat)
    ensures
        concat(paragraph_groups(text, max)) == nonblank_lines(lines(text)),
        split_by_paragraphs_spec(text, max) == nonempty_texts(
            trimmed_joins(paragraph_groups(text, max)),
        ),
{
    let ps = paragraphs(lines(text));
    lemma_paragraphs(lines(text));
    lemma_pack_scan(ps, ps.len(), max);
    assert(ps.take(ps.len() as int) =~= ps);
    let st = pack_scan(ps, ps.len(), max);
    if st.1.len() > 0 {
        lemma_concat_push(st.0, st.1);
    } else {
        assert(concat(st.0) + st.1 =~= concat(st.0));
    }
}

/// Every text that `split_by_paragraphs` returns is non-empty.
pub proof fn law_split_texts_nonempty(text: Seq<char>, max: nat)
    ensures
        forall|i: int|
            0 <= i < split_by_paragraphs_spec(text, max).len() ==> #[trigger] split_by_paragraphs_spec(
                text,
                max,
            )[i].len() > 0,
{
    let cs = trimmed_joins(paragraph_groups(text, max));
    let p = |c: Seq<char>| c.len() > 0;
    assert forall|i: int| 0 <= i < cs.filter(p).len() implies #[trigger] cs.filter(p)[i].len()
        > 0 by {
        cs.lemma_filter_pred(p, i);
    }
}

// ---------------------------------------------------------------------------
// Shape of the groups: none is empty, and each stays within twice `max`
// when every line fits in `max`.
// ---------------------------------------------------------------------------

/// Every group holds at least one line.
pub open spec fn groups_nonempty(gs: Seq<Seq<Seq<char>>>) -> bool {
    forall|i: int| 0 <= i < gs.len() ==> #[trigger] gs[i].len() > 0
}

/// Every group costs at most `bound`.
pub open spec fn groups_within(gs: Seq<Seq<Seq<char>>>, bound: nat) -> bool {
    forall|i: int| 0 <= i < gs.len() ==> lines_cost(#[trigger] gs[i]) <= bound
}

/// Every line is at most `max` bytes long.
pub open spec fn lines_fit(ls: Seq<Seq<char>>, max: nat) -> bool {
    forall|i: int| 0 <= i < ls.len() ==> utf8_len(#[trigger] ls[i]) <= max
}

proof fn lemma_lines_cost_prepend(l: Seq<char>, ls: Seq<Seq<char>>)
    ensures
        lines_cost(seq![l] + ls) == line_cost(l) + lines_cost(ls),
{
    lemma_lines_cost_add(seq![l], ls);
    lemma_lines_cost_push(Seq::<Seq<char>>::empty(), l);
    assert(Seq::<Seq<char>>::empty().push(l) =~= seq![l]);
}

/// The lines that the hard split takes cost less than `budget` before the
/// last one, so at most `budget + max` when every line fits in `max`.
proof fn lemma_take_len_cost(b: Seq<Seq<char>>, budget: int, max: nat)
    requires
        budget >= 1,
        lines_fit(b, max),
    ensures
        lines_cost(b.take(take_len(b, budget) as int)) <= budget + max,
    decreases b.len(),
{
    if b.len() == 0 {
        assert(b.take(0) =~= Seq::<Seq<char>>::empty());
    } else {
        let rest = b.drop_first();
        assert(utf8_len(b[0]) <= max);
        if line_cost(b[0]) >= budget {
            assert(b.take(1) =~= seq![b[0]]);
            lemma_lines_cost_prepend(b[0], Seq::<Seq<char>>::empty());
            assert(seq![b[0]] + Seq::<Seq<char>>::empty() =~= seq![b[0]]);
        } else {
            let nb = budget - line_cost(b[0]);
            assert forall|i: int| 0 <= i < rest.len() implies utf8_len(#[trigger] rest[i])
                <= max by {
                assert(rest[i] == b[i + 1]);
            }
            lemma_take_len_cost(rest, nb, max);
            let k = take_len(rest, nb);
            lemma_take_len_bounds(rest, nb);
            assert(b.take(k as int + 1) =~= seq![b[0]] + rest.take(k as int));
            lemma_lines_cost_prepend(b[0], rest.take(k as int));
        }
    }
}

proof fn lemma_hard_split_shape(gs: Seq<Seq<Seq<char>>>, b: Seq<Seq<char>>, max: nat)
    ensures
        groups_nonempty(gs) ==> groups_nonempty(hard_split(gs, b, max).0),
        max > 0 && lines_fit(b, max) && groups_within(gs, 2 * max) ==> {
            &&& groups_within(hard_split(gs, b, max).0, 2 * max)
            &&& lines_cost(hard_split(gs, b, max).1) <= 2 * max
            &&& lines_fit(hard_split(gs, b, max).1, max)
        },
    decreases b.len(),
{
    if max > 0 && lines_cost(b) > 2 * max && b.len() > 0 {
        let k = take_len(b, max as int);
        lemma_take_len_bounds(b, max as int);
        let t = b.take(k as int);
        let rest = b.skip(k as int);
        if lines_fit(b, max) {
            lemma_take_len_cost(b, max as int, max);
            assert forall|i: int| 0 <= i < rest.len() implies utf8_len(#[trigger] rest[i])
                <= max by {
                assert(rest[i] == b[i + k]);
            }
        }
        lemma_hard_split_shape(gs.push(t), rest, max);
        if groups_nonempty(gs) {
            assert forall|i: int| 0 <= i < gs.push(t).len() implies #[trigger] gs.push(t)[i].len()
                > 0 by {
                if i < gs.len() {
                    assert(gs.push(t)[i] == gs[i]);
                }
            }
        }
        if lines_fit(b, max) && groups_within(gs, 2 * max) {
            assert forall|i: int| 0 <= i < gs.push(t).len() implies lines_cost(
                #[trigger] gs.push(t)[i],
            ) <= 2 * max by {
                if i < gs.len() {
                    assert(gs.push(t)[i] == gs[i]);
                }
            }
        }
    } else if max > 0 && b.len() == 0 {
        assert(lines_cost(b) == 0);
    }
}

proof fn lemma_pack_scan_shape(ps: Seq<Seq<Seq<char>>>, n: nat, max: nat)
    requires
        n <= ps.len(),
    ensures
        groups_nonempty(pack_scan(ps, n, max).0),
        max > 0 && (forall|i: int| 0 <= i < ps.len() ==> lines_fit(#[trigger] ps[i], max)) ==> {
            &&& groups_within(pack_scan(ps, n, max).0, 2 * max)
            &&& lines_cost(pack_scan(ps, n, max).1) <= 2 * max
            &&& lines_fit(pack_scan(ps, n, max).1, max)
        },
    decreases n,
{
    if n > 0 {
        let prev = pack_scan(ps, (n - 1) as nat, max);
        lemma_pack_scan_shape(ps, (n - 1) as nat, max);
        let para = ps[n - 1];
        let flush = prev.1.len() > 0 && lines_cost(prev.1) + lines_cost(para) > max;
        let flushed = if flush {
            (prev.0.push(prev.1), Seq::<Seq<char>>::empty())
        } else {
            prev
        };
        let all_fit = max > 0 && (forall|i: int| 0 <= i < ps.len() ==> lines_fit(#[trigger] ps[i], max));
        assert forall|i: int| 0 <= i < flushed.0.len() implies #[trigger] flushed.0[i].len() > 0 by {
            if i < prev.0.len() {
                assert(flushed.0[i] == prev.0[i]);
            }
        }
        if all_fit {
            assert(lines_fit(para, max));
            assert forall|i: int| 0 <= i < flushed.0.len() implies lines_cost(
                #[trigger] flushed.0[i],
            ) <= 2 * max by {
                if i < prev.0.len() {
                    assert(flushed.0[i] == prev.0[i]);
                }
            }
            let nb = flushed.1 + para;
            assert forall|i: int| 0 <= i < nb.len() implies utf8_len(#[trigger] nb[i]) <= max by {
                if i < flushed.1.len() {
                    assert(nb[i] == flushed.1[i]);
                } else {
                    assert(nb[i] == para[i - flushed.1.len()]);
                }
            }
        }
        lemma_hard_split_shape(flushed.0, flushed.1 + para, max);
    }
}

/// The groups of `paragraph_groups` are never empty, and when `max` is at
/// least 1 and every line fits in `max`, each costs at most `2 * max`.
proof fn lemma_paragraph_groups_shape(text: Seq<char>, max: nat)
    ensures
        groups_nonempty(paragraph_groups(text, max)),
        max > 0 && lines_fit(lines(text), max) ==> groups_within(
            paragraph_groups(text, max),
            2 * max,
        ),
{
    let ls = lines(text);
    let ps = paragraphs(ls);
    let st = pack_scan(ps, ps.len(), max);
    let g = paragraph_groups(text, max);
    lemma_paragraphs(ls);
    if max > 0 && lines_fit(ls, max) {
        assert forall|i: int| 0 <= i < ps.len() implies lines_fit(#[trigger] ps[i], max) by {
            assert forall|j: int| 0 <= j < ps[i].len() implies utf8_len(#[trigger] ps[i][j])
                <= max by {
                lemma_group_line_in(ps, i, j, ls);
            }
        }
    }
    lemma_pack_scan_shape(ps, ps.len(), max);
    if st.1.len() > 0 {
        assert forall|i: int| 0 <= i < g.len() implies #[trigger] g[i].len() > 0 by {
            if i < st.0.len() {
                assert(g[i] == st.0[i]);
            }
        }
        if max > 0 && lines_fit(ls, max) {
            assert forall|i: int| 0 <= i < g.len() implies lines_cost(#[trigger] g[i]) <= 2 * max by {
                if i < st.0.len() {
                    assert(g[i] == st.0[i]);
                }
            }
        }
    }
}

/// A line of a group is a line of the groups laid end to end.
proof fn lemma_concat_contains(gs: Seq<Seq<Seq<char>>>, i: int, j: int)
    requires
        0 <= i < gs.len(),
        0 <= j < gs[i].len(),
    ensures
        concat(gs).contains(gs[i][j]),
    decreases gs.len(),
{
    let d = gs.drop_last();
    if i == gs.len() - 1 {
        assert(concat(gs)[concat(d).len() + j] == gs[i][j]);
    } else {
        lemma_concat_contains(d, i, j);
        let k = choose|k: int| 0 <= k < concat(d).len() && concat(d)[k] == d[i][j];
        assert(concat(gs)[k] == gs[i][j]);
    }
}

/// A line of a group whose lines, laid end to end, are the non-blank lines
/// of `ls` is a non-blank line of `ls`.
proof fn lemma_group_line_in(gs: Seq<Seq<Seq<char>>>, i: int, j: int, ls: Seq<Seq<char>>)
    requires
        0 <= i < gs.len(),
        0 <= j < gs[i].len(),
        concat(gs) == nonblank_lines(ls),
    ensures
        ls.contains(gs[i][j]),
        !is_blank(gs[i][j]),
{
    let p = |l: Seq<char>| !is_blank(l);
    lemma_concat_contains(gs, i, j);
    let n = nonblank_lines(ls);
    let k = choose|k: int| 0 <= k < n.len() && n[k] == gs[i][j];
    ls.lemma_filter_pred(p, k);
    ls.lemma_filter_contains_rev(p, gs[i][j]);
}

/// When `max` is at least 1 and every line of the text is at most `max`
/// bytes long, every text that `split_by_paragraphs` returns is at most
/// `2 * max` bytes long.
pub proof fn law_split_texts_bounded(text: Seq<char>, max: nat)
    requires
        max >= 1,
        forall|i: int| 0 <= i < lines(text).len() ==> utf8_len(#[trigger] lines(text)[i]) <= max,
    ensures
        forall|i: int|
            0 <= i < split_by_paragraphs_spec(text, max).len() ==> utf8_len(
                #[trigger] split_by_paragraphs_spec(text, max)[i],
            ) <= 2 * max,
{
    let g = paragraph_groups(text, max);
    let ts = trimmed_joins(g);
    let p = |c: Seq<char>| c.len() > 0;
    lemma_paragraph_groups_shape(text, max);
    assert forall|i: int| 0 <= i < ts.filter(p).len() implies utf8_len(#[trigger] ts.filter(p)[i])
        <= 2 * max by {
        let c = ts.filter(p)[i];
        assert(ts.filter(p).contains(c));
        ts.lemma_filter_contains_rev(p, c);
        let m = choose|m: int| 0 <= m < ts.len() && ts[m] == c;
        assert(ts[m] == trimmed_join(g[m]));
        lemma_trimmed_join_len(g[m]);
    }
}

/// A non-empty line with no whitespace at either end starts and ends with a
/// character that is not whitespace.
proof fn lemma_trimmed_line_ends(l: Seq<char>)
    requires
        trim(l) == l,
        l.len() > 0,
    ensures
        !is_space(l[0]),
        !is_space(l.last()),
{
    lemma_trim_len(l);
    if is_space(l[0]) {
        lemma_trim_len(l.drop_first());
        lemma_trim_len(trim_start(l.drop_first()));
    }
    assert(trim_start(l) == l);
    if is_space(l.last()) {
        lemma_trim_len(l.drop_last());
    }
}

proof fn lemma_keep_all_nonempty(cs: Seq<Seq<char>>)
    requires
        forall|i: int| 0 <= i < cs.len() ==> #[trigger] cs[i].len() > 0,
    ensures
        nonempty_texts(cs) == cs,
    decreases cs.len(),
{
    if cs.len() > 0 {
        let d = cs.drop_last();
        assert forall|i: int| 0 <= i < d.len() implies #[trigger] d[i].len() > 0 by {
            assert(d[i] == cs[i]);
        }
        lemma_keep_all_nonempty(d);
        assert(d.push(cs.last()) =~= cs);
        d.lemma_filter_push(cs.last(), |c: Seq<char>| c.len() > 0);
    }
}

/// A group of non-empty, trimmed lines without line breaks, joined and
/// trimmed, is the lines joined; split at its line breaks it gives the
/// lines back.
proof fn lemma_group_text(g: Seq<Seq<char>>)
    requires
        g.len() > 0,
        forall|j: int| 0 <= j < g.len() ==> trim(#[trigger] g[j]) == g[j] && g[j].len() > 0
            && no_newline(g[j]),
    ensures
        trimmed_join(g) == join_lines(g),
        join_lines(g).len() > 0,
        newline_pieces(trimmed_join(g)) == g,
{
    let s = join_lines(g);
    lemma_trimmed_line_ends(g[0]);
    lemma_trimmed_line_ends(g.last());
    if g.len() == 1 {
        assert(s == g[0]);
    } else {
        lemma_join_prepend(g[0], g.drop_first());
        assert(seq![g[0]] + g.drop_first() =~= g);
        assert(s == join_lines(g.drop_last()) + seq!['\n'] + g.last());
    }
    assert(s[0] == g[0][0]);
    assert(s.last() == g.last().last());
    crate::text::lemma_trim_bounds(s, 0, s.len() as int);
    assert(s.subrange(0, s.len() as int) =~= s);
    assert forall|i: int| 0 <= i < g.len() implies no_newline(#[trigger] g[i]) by {}
    lemma_pieces_of_join(g);
}

/// When no line of the text has whitespace at either end, the texts that
/// `split_by_paragraphs` returns, each split at its line breaks and laid end
/// to end, are exactly the non-blank lines of the text, each once and in
/// order.
pub proof fn law_split_texts_give_back_lines(text: Seq<char>, max: nat)
    requires
        forall|i: int| 0 <= i < lines(text).len() ==> trim(#[trigger] lines(text)[i]) == lines(text)[i],
    ensures
        concat(split_by_paragraphs_spec(text, max).map_values(|c: Seq<char>| newline_pieces(c)))
            == nonblank_lines(lines(text)),
{
    let ls = lines(text);
    let g = paragraph_groups(text, max);
    let ts = trimmed_joins(g);
    law_split_keeps_nonblank_lines(text, max);
    lemma_paragraph_groups_shape(text, max);
    lemma_lines_no_newline(text);
    assert forall|m: int| 0 <= m < g.len() implies #[trigger] newline_pieces(ts[m]) == g[m]
        && ts[m].len() > 0 by {
        assert forall|j: int| 0 <= j < g[m].len() implies trim(#[trigger] g[m][j]) == g[m][j]
            && g[m][j].len() > 0 && no_newline(g[m][j]) by {
            lemma_group_line_in(g, m, j, ls);
            let k = choose|k: int| 0 <= k < ls.len() && ls[k] == g[m][j];
            assert(trim(ls[k]) == ls[k]);
            assert(no_newline(ls[k]));
        }
        lemma_group_text(g[m]);
    }
    assert forall|m: int| 0 <= m < ts.len() implies #[trigger] ts[m].len() > 0 by {
        assert(newline_pieces(ts[m]) == g[m]);
    }
    lemma_keep_all_nonempty(ts);
    assert(ts.map_values(|c: Seq<char>| newline_pieces(c)) =~= g);
}


// ---------------------------------------------------------------------------
// Executable splitting.
// ---------------------------------------------------------------------------

fn copy_chars(v: &Vec<char>) -> (r: Vec<char>)
    ensures
        r@ == v@,
{
    slice_chars(v, 0, v.len())
}

/// `utf8_len(v@)`, for a text whose length fits in `usize`.
pub fn utf8_len_of(v: &Vec<char>) -> (r: usize)
    requires
        utf8_len(v@) <= usize::MAX,
    ensures
        r == utf8_len(v@),
{
    let mut total: usize = 0;
    let mut i: usize = 0;
    while i < v.len()
        invariant
            i <= v.len(),
            total == utf8_len(v@.take(i as int)),
            utf8_len(v@) <= usize::MAX,
        decreases v.len() - i,
    {
        proof {
            lemma_utf8_len_push(v@.take(i as int), v@[i as int]);
            assert(v@.take(i as int).push(v@[i as int]) =~= v@.take(i + 1));
            lemma_utf8_len_take(v@, i + 1);
        }
        total = total + char_width_of(v[i]);
        i = i + 1;
    }
    assert(v@.take(i as int) =~= v@);
    total
}

/// `lines_cost` of a vector of lines whose total cost fits in `usize`.
fn lines_cost_of(ls: &Vec<Vec<char>>) -> (r: usize)
    requires
        lines_cost(seqs(ls@)) <= usize::MAX,
    ensures
        r == lines_cost(seqs(ls@)),
{
    let mut total: usize = 0;
    let mut i: usize = 0;
    while i < ls.len()
        invariant
            i <= ls.len(),
            total == lines_cost(seqs(ls@).take(i as int)),
            lines_cost(seqs(ls@)) <= usize::MAX,
        decreases ls.len() - i,
    {
        proof {
            let s = seqs(ls@);
            assert(s.take(i as int).push(s[i as int]) =~= s.take(i + 1));
            lemma_lines_cost_push(s.take(i as int), s[i as int]);
            lemma_lines_cost_take(s, i + 1);
        }
        let w = utf8_len_of(&ls[i]);
        total = total + w + 1;
        i = i + 1;
    }
    assert(seqs(ls@).take(i as int) =~= seqs(ls@));
    total
}

fn append_lines(buf: &mut Vec<Vec<char>>, para: &Vec<Vec<char>>)
    ensures
        seqs(final(buf)@) == seqs(old(buf)@) + seqs(para@),
{
    let mut i: usize = 0;
    while i < para.len()
        invariant
            i <= para.len(),
            seqs(buf@) == seqs(old(buf)@) + seqs(para@).take(i as int),
        decreases para.len() - i,
    {
        let line = copy_chars(&para[i]);
        proof {
            lemma_seqs_push(buf@, line);
        }
        buf.push(line);
        i = i + 1;
        assert(seqs(buf@) =~= seqs(old(buf)@) + seqs(para@).take(i as int));
    }
    assert(seqs(para@).take(i as int) =~= seqs(para@));
}

proof fn lemma_groups_view_push(v: Seq<Vec<Vec<char>>>, g: Vec<Vec<char>>)
    ensures
        groups_view(v.push(g)) == groups_view(v).push(seqs(g@)),
{
    assert(groups_view(v.push(g)) =~= groups_view(v).push(seqs(g@)));
}

proof fn lemma_trimmed_joins_push(gs: Seq<Seq<Seq<char>>>, g: Seq<Seq<char>>)
    ensures
        trimmed_joins(gs.push(g)) == trimmed_joins(gs).push(trimmed_join(g)),
{
    assert(trimmed_joins(gs.push(g)) =~= trimmed_joins(gs).push(trimmed_join(g)));
}

/// Groups the lines into paragraphs: maximal runs of non-blank lines.
fn build_paragraphs(ls: &Vec<Vec<char>>) -> (ps: Vec<Vec<Vec<char>>>)
    ensures
        groups_view(ps@) == paragraphs(seqs(ls@)),
{
    let ghost l = seqs(ls@);
    let mut ps: Vec<Vec<Vec<char>>> = Vec::new();
    let mut cur: Vec<Vec<char>> = Vec::new();
    let mut i: usize = 0;
    while i < ls.len()
        invariant
            i <= ls.len(),
            l == seqs(ls@),
            (groups_view(ps@), seqs(cur@)) == paragraph_scan(l, i as nat),
        decreases ls.len() - i,
    {
        let blank = is_blank_chars(&ls[i]);
        if blank {
            if cur.len() > 0 {
                proof {
                    lemma_groups_view_push(ps@, cur);
                }
                ps.push(cur);
                cur = Vec::new();
                assert(seqs(cur@) =~= Seq::<Seq<char>>::empty());
            }
        } else {
            let line = copy_chars(&ls[i]);
            proof {
                lemma_seqs_push(cur@, line);
            }
            cur.push(line);
        }
        i = i + 1;
    }
    if cur.len() > 0 {
        proof {
            lemma_groups_view_push(ps@, cur);
        }
        ps.push(cur);
    }
    ps
}

fn keep_nonempty(cs: &Vec<Vec<char>>) -> (out: Vec<Vec<char>>)
    ensures
        seqs(out@) == nonempty_texts(seqs(cs@)),
{
    let mut out: Vec<Vec<char>> = Vec::new();
    let mut i: usize = 0;
    while i < cs.len()
        invariant
            i <= cs.len(),
            seqs(out@) == nonempty_texts(seqs(cs@).take(i as int)),
        decreases cs.len() - i,
    {
        proof {
            let s = seqs(cs@);
            assert(s.take(i as int).push(s[i as int]) =~= s.take(i + 1));
            s.take(i as int).lemma_filter_push(s[i as int], |c: Seq<char>| c.len() > 0);
        }
        if cs[i].len() > 0 {
            let c = copy_chars(&cs[i]);
            proof {
                lemma_seqs_push(out@, c);
            }
            out.push(c);
        }
        i = i + 1;
    }
    assert(seqs(cs@).take(i as int) =~= seqs(cs@));
    out
}

/// Cuts off the leading lines of `buf` whose cost, before the last one taken,
/// stays below `max`.
fn take_leading(buf: &mut Vec<Vec<char>>, max: usize, Ghost(bound): Ghost<nat>) -> (taken: Vec<
    Vec<char>,
>)
    requires
        max > 0,
        old(buf).len() > 0,
        lines_cost(seqs(old(buf)@)) <= bound <= usize::MAX,
    ensures
        seqs(taken@) == seqs(old(buf)@).take(take_len(seqs(old(buf)@), max as int) as int),
        seqs(final(buf)@) == seqs(old(buf)@).skip(take_len(seqs(old(buf)@), max as int) as int),
{
    let ghost b0 = seqs(buf@);
    let ghost k0 = take_len(b0, max as int);
    let mut taken: Vec<Vec<char>> = Vec::new();
    let mut tc: usize = 0;
    while buf.len() > 0 && tc < max
        invariant
            0 < max,
            lines_cost(b0) <= bound <= usize::MAX,
            seqs(taken@) == b0.take(taken@.len() as int),
            seqs(buf@) == b0.skip(taken@.len() as int),
            taken@.len() <= b0.len(),
            tc == lines_cost(seqs(taken@)),
            tc < max ==> taken@.len() + take_len(seqs(buf@), max - tc) == k0,
            tc >= max ==> taken@.len() == k0,
        decreases buf.len(),
    {
        let ghost j = taken@.len() as int;
        let ghost before = seqs(buf@);
        let line = buf.remove(0);
        proof {
            assert(seqs(buf@) =~= before.drop_first());
            assert(before[0] == b0[j]);
            assert(line@ == b0[j]);
            assert(b0.take(j).push(b0[j]) =~= b0.take(j + 1));
            lemma_lines_cost_push(b0.take(j), b0[j]);
            lemma_lines_cost_take(b0, j + 1);
            assert(b0.skip(j).drop_first() =~= b0.skip(j + 1));
        }
        let w = utf8_len_of(&line);
        tc = tc + w + 1;
        proof {
            lemma_seqs_push(taken@, line);
        }
        taken.push(line);
    }
    proof {
        let j = taken@.len() as int;
        if tc < max {
            assert(seqs(buf@).len() == 0);
        }
        assert(j == k0);
    }
    taken
}

/// `split_by_paragraphs` on a character vector.
/// While the buffer costs more than twice `max`, cuts its leading lines off
/// into a chunk of their own; returns the remaining buffer's cost and the
/// groups so far.
fn cut_long_buffer(
    chunks: &mut Vec<Vec<char>>,
    buf: &mut Vec<Vec<char>>,
    buf_chars: usize,
    max: usize,
    Ghost(groups): Ghost<Seq<Seq<Seq<char>>>>,
    Ghost(total): Ghost<nat>,
) -> (r: (usize, Ghost<Seq<Seq<Seq<char>>>>))
    requires
        0 < max <= usize::MAX / 2,
        buf_chars == lines_cost(seqs(old(buf)@)),
        buf_chars <= total <= usize::MAX,
        seqs(old(chunks)@) == trimmed_joins(groups),
    ensures
        (r.1@, seqs(final(buf)@)) == hard_split(groups, seqs(old(buf)@), max as nat),
        seqs(final(chunks)@) == trimmed_joins(r.1@),
        r.0 == lines_cost(seqs(final(buf)@)),
{
    let ghost target = hard_split(groups, seqs(buf@), max as nat);
    let ghost mut gs = groups;
    let mut bc = buf_chars;
    while bc > max * 2
        invariant
            0 < max <= usize::MAX / 2,
            hard_split(gs, seqs(buf@), max as nat) == target,
            bc == lines_cost(seqs(buf@)),
            bc <= total <= usize::MAX,
            seqs(chunks@) == trimmed_joins(gs),
        decreases buf.len(),
    {
        let ghost b0 = seqs(buf@);
        assert(b0.len() > 0);
        let taken = take_leading(buf, max, Ghost(total));
        proof {
            let k = take_len(b0, max as int);
            lemma_take_len_bounds(b0, max as int);
            lemma_lines_cost_add(b0.take(k as int), b0.skip(k as int));
            assert(b0.take(k as int) + b0.skip(k as int) =~= b0);
        }
        let joined = join_chars(&taken);
        let t = trim_chars(&joined);
        proof {
            lemma_seqs_push(chunks@, t);
            lemma_trimmed_joins_push(gs, seqs(taken@));
            gs = gs.push(seqs(taken@));
        }
        chunks.push(t);
        bc = lines_cost_of(buf);
    }
    (bc, Ghost(gs))
}

pub fn split_paragraph_chars(text: &Vec<char>, max: usize) -> (out: Vec<Vec<char>>)
    requires
        0 < max <= usize::MAX / 2,
        utf8_len(text@) < usize::MAX,
    ensures
        seqs(out@) == split_by_paragraphs_spec(text@, max as nat),
{
    let ls = split_lines(text);
    let ps = build_paragraphs(&ls);
    let ghost pg = groups_view(ps@);
    let ghost total = lines_cost(concat(pg));
    proof {
        lemma_paragraphs(seqs(ls@));
        lemma_filter_cost(seqs(ls@));
        lemma_lines_cost_bound(text@);
    }
    let mut chunks: Vec<Vec<char>> = Vec::new();
    let mut buf: Vec<Vec<char>> = Vec::new();
    let mut buf_chars: usize = 0;
    let ghost mut groups: Seq<Seq<Seq<char>>> = seq![];
    let mut i: usize = 0;
    while i < ps.len()
        invariant
            0 < max <= usize::MAX / 2,
            i <= ps.len(),
            pg == groups_view(ps@),
            total == lines_cost(concat(pg)),
            total <= usize::MAX,
            (groups, seqs(buf@)) == pack_scan(pg, i as nat, max as nat),
            seqs(chunks@) == trimmed_joins(groups),
            buf_chars == lines_cost(seqs(buf@)),
        decreases ps.len() - i,
    {
        let ghost prev = (groups, seqs(buf@));
        proof {
            lemma_pack_scan(pg, i as nat, max as nat);
            lemma_concat_take(pg, i + 1);
            assert(pg.take(i + 1).drop_last() =~= pg.take(i as int));
            lemma_lines_cost_add(concat(pg.take(i as int)), pg[i as int]);
            lemma_lines_cost_add(concat(groups), seqs(buf@));
            assert(seqs(ps@[i as int]@) == pg[i as int]);
        }
        let pc = lines_cost_of(&ps[i]);
        if buf.len() > 0 && buf_chars + pc > max {
            let joined = join_chars(&buf);
            let t = trim_chars(&joined);
            proof {
                lemma_seqs_push(chunks@, t);
                lemma_trimmed_joins_push(groups, seqs(buf@));
                groups = groups.push(seqs(buf@));
            }
            chunks.push(t);
            buf = Vec::new();
            buf_chars = 0;
            assert(seqs(buf@) =~= Seq::<Seq<char>>::empty());
        }
        let ghost flushed_buf = seqs(buf@);
        append_lines(&mut buf, &ps[i]);
        proof {
            lemma_lines_cost_add(flushed_buf, pg[i as int]);
        }
        buf_chars = buf_chars + pc;
        let ghost target = hard_split(groups, seqs(buf@), max as nat);
        assert(target == pack_step(prev, pg[i as int], max as nat));
        let (bc, Ghost(gs)) = cut_long_buffer(&mut chunks, &mut buf, buf_chars, max, Ghost(groups), Ghost(total));
        buf_chars = bc;
        proof {
            groups = gs;
        }
        i = i + 1;
    }
    if buf.len() > 0 {
        let joined = join_chars(&buf);
        let t = trim_chars(&joined);
        proof {
            lemma_seqs_push(chunks@, t);
            lemma_trimmed_joins_push(groups, seqs(buf@));
            groups = groups.push(seqs(buf@));
        }
        chunks.push(t);
    }
    assert(groups == paragraph_groups(text@, max as nat));
    keep_nonempty(&chunks)
}

pub fn split_by_paragraphs(text: &str, max_chars: usize) -> (out: Vec<String>)
    requires
        0 < max_chars <= usize::MAX / 2,
        utf8_len(text@) < usize::MAX,
    ensures
        strings(out@) == split_by_paragraphs_spec(text@, max_chars as nat),
{
    let v = to_chars(text);
    let parts = split_paragraph_chars(&v, max_chars);
    to_strings(&parts)
}

/// The views of a sequence of strings.
pub open spec fn strings(v: Seq<String>) -> Seq<Seq<char>> {
    v.map_values(|s: String| s@)
}

fn to_strings(v: &Vec<Vec<char>>) -> (out: Vec<String>)
    ensures
        strings(out@) == seqs(v@),
{
    let mut out: Vec<String> = Vec::new();
    let mut i: usize = 0;
    while i < v.len()
        invariant
            i <= v.len(),
            strings(out@) == seqs(v@).take(i as int),
        decreases v.len() - i,
    {
        let s = to_string(&v[i]);
        let ghost before = out@;
        out.push(s);
        proof {
            assert(strings(before.push(s)) =~= strings(before).push(s@));
            assert(seqs(v@).take(i + 1) =~= seqs(v@).take(i as int).push(v@[i as int]@));
        }
        i = i + 1;
    }
    assert(seqs(v@).take(i as int) =~= seqs(v@));
    out
}


// ---------------------------------------------------------------------------
// Sections and chunks.
// ---------------------------------------------------------------------------

/// A piece of a document: the heading it falls under and its text.
#[derive(Debug, Clone, PartialEq, Eq)]
pub struct Chunk {
    pub heading: String,
    pub content: String,
}

impl View for Chunk {
    type V = (Seq<char>, Seq<char>);

    open spec fn view(&self) -> (Seq<char>, Seq<char>) {
        (self.heading@, self.content@)
    }
}

pub open spec fn chunk_views(v: Seq<Chunk>) -> Seq<(Seq<char>, Seq<char>)> {
    v.map_values(|c: Chunk| c@)
}

/// Number of `'#'` characters at the start of `s`.
pub open spec fn hash_run(s: Seq<char>) -> nat
    decreases s.len(),
{
    if s.len() > 0 && s[0] == '#' {
        1 + hash_run(s.drop_first())
    } else {
        0
    }
}

/// A heading line: one to four `'#'` followed by whitespace (the pattern
/// `^#{1,4}\s+`).
pub open spec fn is_heading_line(s: Seq<char>) -> bool {
    let k = hash_run(s);
    1 <= k <= 4 && k < s.len() && crate::text::is_space(s[k as int])
}

/// The title of a heading line: what follows its `'#'` marks, trimmed.
pub open spec fn heading_text(s: Seq<char>) -> Seq<char> {
    trim(s.skip(hash_run(s) as int))
}

/// Heading used for text that comes before the first heading line.
pub open spec fn top_heading() -> Seq<char> {
    "(top)"@
}

/// Scan state: sections closed so far, current heading, lines of the
/// current section.
pub type SectionScan = (Seq<(Seq<char>, Seq<char>)>, Seq<char>, Seq<Seq<char>>);

/// The sections with the current one closed, if it has any line.
pub open spec fn close_section(st: SectionScan) -> Seq<(Seq<char>, Seq<char>)> {
    if st.2.len() > 0 {
        st.0.push((st.1, trimmed_join(st.2)))
    } else {
        st.0
    }
}

pub open spec fn section_step(st: SectionScan, line: Seq<char>) -> SectionScan {
    if is_heading_line(line) {
        (close_section(st), heading_text(line), seq![])
    } else {
        (st.0, st.1, st.2.push(line))
    }
}

pub open spec fn section_scan(ls: Seq<Seq<char>>, n: nat) -> SectionScan
    decreases n,
{
    if n == 0 {
        (seq![], top_heading(), seq![])
    } else {
        section_step(section_scan(ls, (n - 1) as nat), ls[n - 1])
    }
}

/// The (heading, content) sections of a document.
pub open spec fn sections(text: Seq<char>) -> Seq<(Seq<char>, Seq<char>)> {
    let ls = lines(text);
    close_section(section_scan(ls, ls.len()))
}

/// The heading of the `n`-th piece of a split section: `"{h} ({n})"`.
pub open spec fn numbered_heading(h: Seq<char>, n: nat) -> Seq<char> {
    h + " ("@ + decimal(n) + ")"@
}

/// The chunks one section yields.
pub open spec fn section_chunks(h: Seq<char>, c: Seq<char>) -> Seq<(Seq<char>, Seq<char>)> {
    if c.len() == 0 {
        seq![]
    } else if utf8_len(c) <= MAX_CHUNK_CHARS {
        seq![(h, c)]
    } else {
        let subs = split_by_paragraphs_spec(c, MAX_CHUNK_CHARS as nat);
        if subs.len() == 1 {
            seq![(h, c)]
        } else {
            Seq::new(subs.len(), |i: int| (numbered_heading(h, (i + 1) as nat), subs[i]))
        }
    }
}

pub open spec fn chunks_of_sections(secs: Seq<(Seq<char>, Seq<char>)>) -> Seq<
    (Seq<char>, Seq<char>),
>
    decreases secs.len(),
{
    if secs.len() == 0 {
        seq![]
    } else {
        chunks_of_sections(secs.drop_last()) + section_chunks(secs.last().0, secs.last().1)
    }
}

/// What `parse_chunks(text)` returns.
pub open spec fn parse_chunks_spec(text: Seq<char>) -> Seq<(Seq<char>, Seq<char>)> {
    chunks_of_sections(sections(text))
}

proof fn lemma_hash_run(s: Seq<char>, k: int)
    requires
        0 <= k <= s.len(),
        forall|j: int| 0 <= j < k ==> #[trigger] s[j] == '#',
        k == s.len() || s[k] != '#',
    ensures
        hash_run(s) == k,
    decreases k,
{
    if k > 0 {
        assert forall|j: int| 0 <= j < k - 1 implies #[trigger] s.drop_first()[j] == '#' by {
            assert(s.drop_first()[j] == s[j + 1]);
        }
        lemma_hash_run(s.drop_first(), k - 1);
    }
}

/// The title of `line` when it is a heading line.
fn heading_of(line: &Vec<char>) -> (r: Option<Vec<char>>)
    ensures
        r is Some == is_heading_line(line@),
        r matches Some(h) ==> h@ == heading_text(line@),
{
    let n = line.len();
    let mut k: usize = 0;
    while k < n && line[k] == '#'
        invariant
            k <= n == line.len(),
            forall|j: int| 0 <= j < k ==> #[trigger] line@[j] == '#',
        decreases n - k,
    {
        k = k + 1;
    }
    proof {
        lemma_hash_run(line@, k as int);
    }
    if 1 <= k && k <= 4 && k < n && crate::text::is_space_char(line[k]) {
        let rest = slice_chars(line, k, n);
        assert(rest@ =~= line@.skip(k as int));
        Some(trim_chars(&rest))
    } else {
        None
    }
}

pub open spec fn pairs_view(v: Seq<(Vec<char>, Vec<char>)>) -> Seq<(Seq<char>, Seq<char>)> {
    v.map_values(|p: (Vec<char>, Vec<char>)| (p.0@, p.1@))
}

proof fn lemma_pairs_view_push(v: Seq<(Vec<char>, Vec<char>)>, p: (Vec<char>, Vec<char>))
    ensures
        pairs_view(v.push(p)) == pairs_view(v).push((p.0@, p.1@)),
{
    assert(pairs_view(v.push(p)) =~= pairs_view(v).push((p.0@, p.1@)));
}

proof fn lemma_join_cost(b: Seq<Seq<char>>)
    requires
        b.len() > 0,
    ensures
        utf8_len(join_lines(b)) + 1 == lines_cost(b),
    decreases b.len(),
{
    let d = b.drop_last();
    assert(lines_cost(b) == lines_cost(d) + utf8_len(b.last()) + 1);
    if b.len() > 1 {
        lemma_join_cost(d);
        let j = join_lines(d);
        lemma_utf8_len_push(j, '\n');
        assert(j.push('\n') =~= j + seq!['\n']);
        lemma_utf8_len_add(j + seq!['\n'], b.last());
        assert(join_lines(b) == j + seq!['\n'] + b.last());
        assert(char_width('\n') == 1);
    } else {
        assert(d =~= Seq::<Seq<char>>::empty());
        assert(lines_cost(d) == 0);
        assert(join_lines(b) == b[0]);
        assert(b.last() == b[0]);
    }
}

proof fn lemma_trim_start_len(s: Seq<char>)
    ensures
        utf8_len(crate::text::trim_start(s)) <= utf8_len(s),
    decreases s.len(),
{
    if s.len() > 0 && crate::text::is_space(s[0]) {
        lemma_trim_start_len(s.drop_first());
    }
}

proof fn lemma_trim_end_len(s: Seq<char>)
    ensures
        utf8_len(crate::text::trim_end(s)) <= utf8_len(s),
    decreases s.len(),
{
    if s.len() > 0 && crate::text::is_space(s.last()) {
        lemma_trim_end_len(s.drop_last());
        lemma_utf8_len_push(s.drop_last(), s.last());
        assert(s.drop_last().push(s.last()) =~= s);
    }
}

proof fn lemma_trimmed_join_len(b: Seq<Seq<char>>)
    requires
        b.len() > 0,
    ensures
        utf8_len(trimmed_join(b)) + 1 <= lines_cost(b),
{
    lemma_join_cost(b);
    lemma_trim_start_len(join_lines(b));
    lemma_trim_end_len(crate::text::trim_start(join_lines(b)));
}

/// The sections of a document, as `(heading, content)` pairs.
fn build_sections(ls: &Vec<Vec<char>>) -> (secs: Vec<(Vec<char>, Vec<char>)>)
    requires
        lines_cost(seqs(ls@)) <= usize::MAX,
    ensures
        pairs_view(secs@) == close_section(section_scan(seqs(ls@), ls@.len() as nat)),
        forall|i: int|
            0 <= i < secs@.len() ==> utf8_len(#[trigger] secs@[i].1@) < usize::MAX,
{
    let ghost l = seqs(ls@);
    let mut secs: Vec<(Vec<char>, Vec<char>)> = Vec::new();
    let mut heading = to_chars("(top)");
    let mut body: Vec<Vec<char>> = Vec::new();
    let mut i: usize = 0;
    while i < ls.len()
        invariant
            i <= ls.len(),
            l == seqs(ls@),
            lines_cost(l) <= usize::MAX,
            (pairs_view(secs@), heading@, seqs(body@)) == section_scan(l, i as nat),
            lines_cost(seqs(body@)) <= lines_cost(l.take(i as int)),
            forall|j: int| 0 <= j < secs@.len() ==> utf8_len(#[trigger] secs@[j].1@) < usize::MAX,
        decreases ls.len() - i,
    {
        proof {
            assert(l.take(i as int).push(l[i as int]) =~= l.take(i + 1));
            lemma_lines_cost_push(l.take(i as int), l[i as int]);
            lemma_lines_cost_take(l, i + 1);
        }
        match heading_of(&ls[i]) {
            Some(h) => {
                if body.len() > 0 {
                    let joined = join_chars(&body);
                    let content = trim_chars(&joined);
                    proof {
                        lemma_trimmed_join_len(seqs(body@));
                        lemma_pairs_view_push(secs@, (heading, content));
                    }
                    secs.push((heading, content));
                }
                heading = h;
                body = Vec::new();
                assert(seqs(body@) =~= Seq::<Seq<char>>::empty());
            },
            None => {
                let line = copy_chars(&ls[i]);
                proof {
                    lemma_seqs_push(body@, line);
                    lemma_lines_cost_push(seqs(body@), line@);
                }
                body.push(line);
            },
        }
        i = i + 1;
    }
    if body.len() > 0 {
        let joined = join_chars(&body);
        let content = trim_chars(&joined);
        proof {
            assert(l.take(i as int) =~= l);
            lemma_trimmed_join_len(seqs(body@));
            lemma_pairs_view_push(secs@, (heading, content));
        }
        secs.push((heading, content));
    }
    secs
}

fn make_chunk(h: &Vec<char>, c: &Vec<char>) -> (r: Chunk)
    ensures
        r@ == (h@, c@),
{
    Chunk { heading: to_string(h), content: to_string(c) }
}

/// Appends the chunks of one section to `out`.
fn push_section_chunks(out: &mut Vec<Chunk>, h: &Vec<char>, c: &Vec<char>)
    requires
        utf8_len(c@) < usize::MAX,
    ensures
        chunk_views(final(out)@) == chunk_views(old(out)@) + section_chunks(h@, c@),
{
    proof {
        reveal_strlit(" (");
        reveal_strlit(")");
    }
    if c.len() == 0 {
        assert(chunk_views(out@) + section_chunks(h@, c@) =~= chunk_views(out@));
        return;
    }
    if utf8_len_at_most(c, MAX_CHUNK_CHARS) {
        let ch = make_chunk(h, c);
        let ghost before = out@;
        out.push(ch);
        assert(chunk_views(out@) =~= chunk_views(before) + section_chunks(h@, c@));
        return;
    }
    let subs = split_paragraph_chars(c, MAX_CHUNK_CHARS);
    if subs.len() == 1 {
        let ch = make_chunk(h, c);
        let ghost before = out@;
        out.push(ch);
        assert(chunk_views(out@) =~= chunk_views(before) + section_chunks(h@, c@));
        return;
    }
    let ghost base = chunk_views(out@);
    let ghost want = section_chunks(h@, c@);
    let mut k: usize = 0;
    while k < subs.len()
        invariant
            k <= subs.len(),
            want.len() == subs.len(),
            forall|j: int| 0 <= j < subs.len() ==> #[trigger] want[j] == (numbered_heading(h@, (j + 1) as nat), subs@[j]@),
            chunk_views(out@) == base + want.take(k as int),
        decreases subs.len() - k,
    {
        let mut title = copy_chars(h);
        title.push(' ');
        title.push('(');
        crate::text::push_decimal(&mut title, (k + 1) as u64);
        title.push(')');
        proof {
            reveal_strlit(" (");
            reveal_strlit(")");
            assert(title@ =~= numbered_heading(h@, (k + 1) as nat));
        }
        let ch = make_chunk(&title, &subs[k]);
        let ghost before = out@;
        out.push(ch);
        proof {
            assert(chunk_views(before.push(ch)) =~= chunk_views(before).push(ch@));
            assert(want.take(k + 1) =~= want.take(k as int).push(want[k as int]));
            assert(ch@ == want[k as int]);
        }
        k = k + 1;
        assert(chunk_views(out@) =~= base + want.take(k as int));
    }
    assert(want.take(k as int) =~= want);
}

/// Splits a markdown document into chunks: one per h1-h4 section, or
/// several numbered ones for a section longer than `MAX_CHUNK_CHARS` bytes.
pub fn parse_chunks(text: &str) -> (out: Vec<Chunk>)
    requires
        utf8_len(text@) < usize::MAX,
    ensures
        chunk_views(out@) == parse_chunks_spec(text@),
{
    let v = to_chars(text);
    let ls = split_lines(&v);
    proof {
        lemma_lines_cost_bound(text@);
    }
    let secs = build_sections(&ls);
    let ghost sv = pairs_view(secs@);
    let mut out: Vec<Chunk> = Vec::new();
    let mut i: usize = 0;
    while i < secs.len()
        invariant
            i <= secs.len(),
            sv == pairs_view(secs@),
            sv == sections(text@),
            forall|j: int| 0 <= j < secs@.len() ==> utf8_len(#[trigger] secs@[j].1@) < usize::MAX,
            chunk_views(out@) == chunks_of_sections(sv.take(i as int)),
        decreases secs.len() - i,
    {
        assert(sv.take(i + 1).drop_last() =~= sv.take(i as int));
        assert(sv[i as int] == (secs@[i as int].0@, secs@[i as int].1@));
        push_section_chunks(&mut out, &secs[i].0, &secs[i].1);
        i = i + 1;
    }
    assert(sv.take(i as int) =~= sv);
    out
}

/// A section longer than `MAX_CHUNK_CHARS` bytes that `split_by_paragraphs`
/// cuts into several texts gives one chunk per text, in document order: the
/// chunk headed `"h (i+1)"` holds the `i`-th text. When no line of the
/// section has whitespace at either end, the contents of these chunks, in
/// heading order, split at their line breaks and laid end to end, are the
/// section's non-blank lines in document order.
pub proof fn law_split_section_chunks_in_order(h: Seq<char>, c: Seq<char>)
    requires
        c.len() > 0,
        utf8_len(c) > MAX_CHUNK_CHARS,
        split_by_paragraphs_spec(c, MAX_CHUNK_CHARS as nat).len() != 1,
    ensures
        ({
            let subs = split_by_paragraphs_spec(c, MAX_CHUNK_CHARS as nat);
            let cs = section_chunks(h, c);
            &&& cs.len() == subs.len()
            &&& forall|i: int|
                0 <= i < cs.len() ==> #[trigger] cs[i] == (h + " ("@ + decimal((i + 1) as nat)
                    + ")"@, subs[i])
            &&& (forall|i: int| 0 <= i < lines(c).len() ==> trim(#[trigger] lines(c)[i]) == lines(
                c,
            )[i]) ==> concat(cs.map_values(|p: (Seq<char>, Seq<char>)| newline_pieces(p.1)))
                == nonblank_lines(lines(c))
        }),
{
    let subs = split_by_paragraphs_spec(c, MAX_CHUNK_CHARS as nat);
    let cs = section_chunks(h, c);
    assert(cs.map_values(|p: (Seq<char>, Seq<char>)| newline_pieces(p.1)) =~= subs.map_values(
        |t: Seq<char>| newline_pieces(t),
    ));
    if forall|i: int| 0 <= i < lines(c).len() ==> trim(#[trigger] lines(c)[i]) == lines(c)[i] {
        law_split_texts_give_back_lines(c, MAX_CHUNK_CHARS as nat);
    }
}

/// A non-empty section of at most `MAX_CHUNK_CHARS` bytes, or one that
/// `split_by_paragraphs` leaves in one piece, is one chunk under the
/// section's own heading with the whole content; an empty section gives no
/// chunk.
pub proof fn law_unsplit_section_is_one_chunk(h: Seq<char>, c: Seq<char>)
    ensures
        c.len() == 0 ==> section_chunks(h, c).len() == 0,
        c.len() > 0 && (utf8_len(c) <= MAX_CHUNK_CHARS || split_by_paragraphs_spec(
            c,
            MAX_CHUNK_CHARS as nat,
        ).len() == 1) ==> section_chunks(h, c) == seq![(h, c)],
{
}

/// The chunks of two runs of sections, one after the other, are the chunks
/// of the first run followed by those of the second: sections are chunked in
/// document order.
pub proof fn law_chunks_follow_sections(
    a: Seq<(Seq<char>, Seq<char>)>,
    b: Seq<(Seq<char>, Seq<char>)>,
)
    ensures
        chunks_of_sections(a + b) == chunks_of_sections(a) + chunks_of_sections(b),
    decreases b.len(),
{
    if b.len() == 0 {
        assert(a + b =~= a);
        assert(chunks_of_sections(a) + chunks_of_sections(b) =~= chunks_of_sections(a));
    } else {
        assert((a + b).drop_last() =~= a + b.drop_last());
        law_chunks_follow_sections(a, b.drop_last());
        assert(chunks_of_sections(a) + chunks_of_sections(b.drop_last()) + section_chunks(
            b.last().0,
            b.last().1,
        ) =~= chunks_of_sections(a) + chunks_of_sections(b));
    }
}

/// Every chunk that `parse_chunks` returns has non-empty content.
pub proof fn law_chunk_contents_nonempty(text: Seq<char>)
    ensures
        forall|i: int|
            0 <= i < parse_chunks_spec(text).len() ==> #[trigger] parse_chunks_spec(text)[i].1.len()
                > 0,
{
    lemma_chunks_nonempty(sections(text));
}

proof fn lemma_chunks_nonempty(secs: Seq<(Seq<char>, Seq<char>)>)
    ensures
        forall|i: int|
            0 <= i < chunks_of_sections(secs).len() ==> #[trigger] chunks_of_sections(secs)[i].1.len()
                > 0,
    decreases secs.len(),
{
    if secs.len() > 0 {
        lemma_chunks_nonempty(secs.drop_last());
        let (h, c) = secs.last();
        let prev = chunks_of_sections(secs.drop_last());
        let sc = section_chunks(h, c);
        if c.len() > 0 && utf8_len(c) > MAX_CHUNK_CHARS {
            law_split_texts_nonempty(c, MAX_CHUNK_CHARS as nat);
        }
        assert forall|i: int| 0 <= i < (prev + sc).len() implies #[trigger] (prev + sc)[i].1.len()
            > 0 by {
            if i >= prev.len() {
                assert((prev + sc)[i] == sc[i - prev.len()]);
            }
        }
    }
}

} // verus!
