//! The preprocessor: joins caret-continued physical lines into logical
//! lines, annotates parenthesis depth and group ids, and builds the
//! physical-to-logical index map.

use vstd::prelude::*;

verus! {

use crate::text::{
    chars_of,
    push_all,
    string_from_chars,
    sub_chars,
};

/// One joined line (before block annotation).
pub struct JoinedLine {
    pub text: String,
    pub phys_start: usize,
    pub phys_end: usize,
}

/// Final logical line with block metadata for the debugger.
pub struct LogicalLine {
    pub text: String,
    pub phys_start: usize,
    pub phys_end: usize,
    pub group_id: Option<u64>,
    pub group_depth: usize,
}

/// Output of preprocessing: logical lines plus the map back from
/// physical to logical indices.
pub struct PreprocessResult {
    pub logical: Vec<LogicalLine>,
    pub phys_to_logical: Vec<usize>,
}

/// The views of a sequence of physical line strings.
pub open spec fn views_of(lines: Seq<String>) -> Seq<Seq<char>> {
    lines.map_values(|l: String| l@)
}

/// A space or tab: the only characters ignored after a trailing caret.
pub open spec fn is_st_char(c: char) -> bool {
    c == ' ' || c == '\t'
}

/// Index one past the last character that is not a space or tab.
pub open spec fn last_non_st_end(s: Seq<char>) -> int
    decreases s.len(),
{
    if s.len() == 0 {
        0
    } else if is_st_char(s.last()) {
        last_non_st_end(s.drop_last())
    } else {
        s.len() as int
    }
}

pub proof fn lemma_last_non_st_end(s: Seq<char>)
    ensures
        0 <= last_non_st_end(s) <= s.len(),
        forall|i: int| last_non_st_end(s) <= i < s.len() ==> is_st_char(s[i]),
        last_non_st_end(s) > 0 ==> !is_st_char(s[last_non_st_end(s) - 1]),
    decreases s.len(),
{
    if s.len() > 0 && is_st_char(s.last()) {
        lemma_last_non_st_end(s.drop_last());
        assert forall|i: int| last_non_st_end(s) <= i < s.len() implies is_st_char(s[i]) by {
            if i < s.len() - 1 {
                assert(s.drop_last()[i] == s[i]);
            }
        }
        if last_non_st_end(s) > 0 {
            assert(s.drop_last()[last_non_st_end(s) - 1] == s[last_non_st_end(s) - 1]);
        }
    }
}

/// The line with trailing spaces and tabs removed.
pub open spec fn detrailed(s: Seq<char>) -> Seq<char> {
    s.take(last_non_st_end(s))
}

/// Number of consecutive carets at the end of the text.
pub open spec fn caret_run(s: Seq<char>) -> int
    decreases s.len(),
{
    if s.len() == 0 {
        0
    } else if s.last() == '^' {
        1 + caret_run(s.drop_last())
    } else {
        0
    }
}

pub proof fn lemma_caret_run(s: Seq<char>)
    ensures
        0 <= caret_run(s) <= s.len(),
        forall|i: int| s.len() - caret_run(s) <= i < s.len() ==> s[i] == '^',
        caret_run(s) < s.len() ==> s[s.len() - caret_run(s) - 1] != '^',
    decreases s.len(),
{
    if s.len() > 0 && s.last() == '^' {
        lemma_caret_run(s.drop_last());
        assert forall|i: int| s.len() - caret_run(s) <= i < s.len() implies s[i] == '^' by {
            if i < s.len() - 1 {
                assert(s.drop_last()[i] == s[i]);
            }
        }
        if caret_run(s) < s.len() {
            assert(s.drop_last()[s.len() - caret_run(s) - 1] == s[s.len() - caret_run(s) - 1]);
        }
    }
}

/// A physical line continues into the next one: after trailing spaces
/// and tabs are ignored, it ends in an odd run of carets.
pub open spec fn line_continues(s: Seq<char>) -> bool {
    caret_run(detrailed(s)) % 2 == 1
}

/// The text a continuing line contributes: trailing whitespace and one
/// caret removed.
pub open spec fn stripped(s: Seq<char>) -> Seq<char> {
    detrailed(s).drop_last()
}

/// Physical index (inclusive) where the logical line starting at `i`
/// ends: the first following line that does not continue, clamped to
/// the last physical line.
pub open spec fn span_end(lines: Seq<Seq<char>>, i: int) -> int
    decreases lines.len() - i,
    when 0 <= i < lines.len()
{
    if line_continues(lines[i]) && i + 1 < lines.len() {
        span_end(lines, i + 1)
    } else {
        i
    }
}

pub proof fn lemma_span_end(lines: Seq<Seq<char>>, i: int)
    requires
        0 <= i < lines.len(),
    ensures
        i <= span_end(lines, i) < lines.len(),
    decreases lines.len() - i,
{
    if line_continues(lines[i]) && i + 1 < lines.len() {
        lemma_span_end(lines, i + 1);
    }
}

/// The joined text of the logical line starting at physical index `i`.
pub open spec fn span_text(lines: Seq<Seq<char>>, i: int) -> Seq<char>
    decreases lines.len() - i,
    when 0 <= i < lines.len()
{
    if line_continues(lines[i]) {
        if i + 1 < lines.len() {
            stripped(lines[i]) + seq![' '] + span_text(lines, i + 1)
        } else {
            stripped(lines[i])
        }
    } else {
        lines[i]
    }
}

/// The logical lines of a script, as (text, phys_start, phys_end)
/// triples over the physical line views.
pub open spec fn spec_join(lines: Seq<Seq<char>>, i: int) -> Seq<(Seq<char>, int, int)>
    decreases lines.len() - i,
    when 0 <= i
    via spec_join_decreases
{
    if i >= lines.len() {
        Seq::empty()
    } else {
        seq![(span_text(lines, i), i, span_end(lines, i))] + spec_join(
            lines,
            span_end(lines, i) + 1,
        )
    }
}

#[via_fn]
proof fn spec_join_decreases(lines: Seq<Seq<char>>, i: int) {
    if i < lines.len() {
        lemma_span_end(lines, i);
    }
}

/// The spans of the joined lines tile the physical range `[i, n)`:
/// the first starts at `i`, each next one starts one past the previous
/// end, and the last ends at the last physical line.
pub proof fn lemma_join_partition(lines: Seq<Seq<char>>, i: int)
    requires
        0 <= i,
    ensures
        ({
            let m = spec_join(lines, i);
            &&& (i < lines.len() <==> m.len() > 0)
            &&& m.len() > 0 ==> m[0].1 == i && m[m.len() - 1].2 == lines.len() - 1
            &&& forall|k: int| 0 <= k < m.len() ==> 0 <= #[trigger] m[k].1 <= m[k].2 < lines.len()
            &&& forall|k: int| 0 < k < m.len() ==> #[trigger] m[k].1 == m[k - 1].2 + 1
        }),
    decreases lines.len() - i,
{
    if i < lines.len() {
        lemma_span_end(lines, i);
        lemma_join_partition(lines, span_end(lines, i) + 1);
        let m = spec_join(lines, i);
        let rest = spec_join(lines, span_end(lines, i) + 1);
        assert(m[0] == (span_text(lines, i), i, span_end(lines, i)));
        assert forall|k: int| 0 < k < m.len() implies #[trigger] m[k].1 == m[k - 1].2 + 1 by {
            if k == 1 {
                assert(m[1] == rest[0]);
            } else {
                assert(m[k] == rest[k - 1]);
                assert(m[k - 1] == rest[k - 2]);
            }
        }
        if rest.len() > 0 {
            assert(m[m.len() - 1] == rest[rest.len() - 1]);
        }
    }
}

/// Whether a physical line continues, plus the text it contributes
/// when it does (trailing whitespace and one caret removed).
fn continuation_of(line: &Vec<char>) -> (r: (bool, Vec<char>))
    ensures
        r.0 == line_continues(line@),
        r.0 ==> r.1@ == stripped(line@),
        !r.0 ==> r.1@ == line@,
{
    proof {
        lemma_last_non_st_end(line@);
    }
    let mut e: usize = line.len();
    while e > 0 && (line[e - 1] == ' ' || line[e - 1] == '\t')
        invariant
            0 <= e <= line@.len(),
            forall|i: int| e <= i < line@.len() ==> is_st_char(line@[i]),
            e >= last_non_st_end(line@),
        decreases e,
    {
        proof {
            if e - 1 < last_non_st_end(line@) {
                lemma_last_non_st_end(line@);
            }
        }
        e = e - 1;
    }
    proof {
        lemma_last_non_st_end(line@);
        if e > last_non_st_end(line@) {
            assert(is_st_char(line@[e - 1]));
        }
        assert(e == last_non_st_end(line@));
    }
    let ghost det = detrailed(line@);
    proof {
        lemma_caret_run(det);
    }
    let mut c: usize = e;
    while c > 0 && line[c - 1] == '^'
        invariant
            0 <= c <= e <= line@.len(),
            det == detrailed(line@),
            e == last_non_st_end(line@),
            forall|i: int| c <= i < e ==> line@[i] == '^',
            e - c <= caret_run(det),
        decreases c,
    {
        proof {
            if e - (c - 1) > caret_run(det) {
                lemma_caret_run(det);
                assert(det[e - caret_run(det) - 1] == line@[e - caret_run(det) - 1]);
            }
        }
        c = c - 1;
    }
    proof {
        lemma_caret_run(det);
        if e - c < caret_run(det) {
            assert(det[c - 1] == line@[c - 1]);
            assert(det[c - 1] == '^');
        }
        assert(e - c == caret_run(det));
    }
    let run = e - c;
    if run % 2 == 1 {
        let head = sub_chars(line, 0, e - 1);
        proof {
            assert(head@ =~= stripped(line@));
        }
        (true, head)
    } else {
        let whole = sub_chars(line, 0, line.len());
        proof {
            assert(whole@ =~= line@);
        }
        (false, whole)
    }
}

/// The (text, span) triple a `JoinedLine` stands for.
pub open spec fn joined_model(j: JoinedLine) -> (Seq<char>, int, int) {
    (j.text@, j.phys_start as int, j.phys_end as int)
}

pub open spec fn joined_models(v: Seq<JoinedLine>) -> Seq<(Seq<char>, int, int)> {
    v.map_values(|j: JoinedLine| joined_model(j))
}

/// Join physical lines that are continued with a trailing caret `^`.
///
/// A line continues exactly when its trailing caret run (ignoring
/// trailing spaces and tabs) is odd; one caret is stripped and a single
/// space separates it from the next line's text.  A continuation on the
/// very last physical line is kept, with the span clamped to the file.
pub fn join_continued_lines(physical: &Vec<String>) -> (r: Vec<JoinedLine>)
    ensures
        joined_models(r@) == spec_join(views_of(physical@), 0),
{
    let ghost lines = views_of(physical@);
    let n = physical.len();
    let mut out: Vec<JoinedLine> = Vec::new();
    let mut i: usize = 0;
    proof {
        assert(joined_models(out@) + spec_join(lines, 0) =~= spec_join(lines, 0));
    }
    while i < n
        invariant
            0 <= i <= n,
            n == physical@.len(),
            lines == views_of(physical@),
            joined_models(out@) + spec_join(lines, i as int) == spec_join(lines, 0),
        decreases n - i,
    {
        let ghost start_g = i as int;
        let start = i;
        let mut buf: Vec<char> = Vec::new();
        proof {
            lemma_span_end(lines, start_g);
        }
        loop
            invariant_except_break
                span_text(lines, start_g) == buf@ + span_text(lines, i as int),
            invariant
                start <= i < n,
                n == physical@.len(),
                lines == views_of(physical@),
                span_end(lines, start_g) == span_end(lines, i as int),
                start_g == start as int,
            ensures
                start <= i < n,
                buf@ == span_text(lines, start_g),
                i as int == span_end(lines, start_g),
            decreases n - i,
        {
            let cs = chars_of(&physical[i]);
            proof {
                assert(lines[i as int] == physical@[i as int]@);
            }
            let ghost buf0 = buf@;
            let (cont, piece) = continuation_of(&cs);
            push_all(&mut buf, &piece);
            if cont && i + 1 < n {
                buf.push(' ');
                proof {
                    assert(span_text(lines, i as int) == stripped(lines[i as int]) + seq![' ']
                        + span_text(lines, i + 1));
                    assert(buf@ + span_text(lines, i + 1) =~= buf0 + span_text(
                        lines,
                        i as int,
                    ));
                }
                i = i + 1;
            } else {
                proof {
                    if cont {
                        assert(i + 1 == n);
                        assert(span_text(lines, i as int) == stripped(lines[i as int]));
                        assert(span_end(lines, i as int) == i as int);
                    } else {
                        assert(span_text(lines, i as int) == lines[i as int]);
                        assert(span_end(lines, i as int) == i as int);
                    }
                    assert(buf@ =~= span_text(lines, start_g));
                }
                break ;
            }
        }
        let text = string_from_chars(&buf);
        let jl = JoinedLine { text, phys_start: start, phys_end: i };
        proof {
            assert(joined_model(jl) == (span_text(lines, start_g), start_g, span_end(
                lines,
                start_g,
            )));
        }
        out.push(jl);
        proof {
            assert(spec_join(lines, start_g) == seq![
                (span_text(lines, start_g), start_g, span_end(lines, start_g)),
            ] + spec_join(lines, span_end(lines, start_g) + 1));
            assert(joined_models(out@) =~= joined_models(out@.drop_last()) + seq![
                joined_model(jl),
            ]);
            assert(joined_models(out@) + spec_join(lines, span_end(lines, start_g) + 1)
                =~= spec_join(lines, 0));
        }
        i = i + 1;
    }
    proof {
        assert(spec_join(lines, n as int) =~= Seq::<(Seq<char>, int, int)>::empty());
        assert(joined_models(out@) + Seq::<(Seq<char>, int, int)>::empty() =~= joined_models(
            out@,
        ));
    }
    out
}

/// Group-id counter after one more group is opened; pinned at the top
/// of its range rather than wrapping.
pub open spec fn next_id(n: u64) -> u64 {
    if n < u64::MAX {
        (n + 1) as u64
    } else {
        n
    }
}

/// One line's parenthesis scan: outside double quotes and caret
/// escapes, `(` pushes a fresh group id and `)` pops one (no effect on
/// an empty stack).  Quote and escape state start fresh on each line.
/// Returns the group-id stack and the next fresh id.
pub open spec fn scan_line(
    s: Seq<char>,
    i: int,
    stack: Seq<u64>,
    next: u64,
    esc: bool,
    inq: bool,
) -> (Seq<u64>, u64)
    decreases s.len() - i,
    when 0 <= i
{
    if i >= s.len() {
        (stack, next)
    } else if esc {
        scan_line(s, i + 1, stack, next, false, inq)
    } else if s[i] == '^' {
        scan_line(s, i + 1, stack, next, true, inq)
    } else if s[i] == '"' {
        scan_line(s, i + 1, stack, next, false, !inq)
    } else if inq {
        scan_line(s, i + 1, stack, next, false, true)
    } else if s[i] == '(' {
        scan_line(s, i + 1, stack.push(next), next_id(next), false, false)
    } else if s[i] == ')' {
        scan_line(
            s,
            i + 1,
            if stack.len() > 0 {
                stack.drop_last()
            } else {
                stack
            },
            next,
            false,
            false,
        )
    } else {
        scan_line(s, i + 1, stack, next, false, false)
    }
}

/// The (group-id stack, next fresh id) state before line `k` of the
/// given logical line texts.  Groups start empty; ids start at 1.
pub open spec fn state_before(texts: Seq<Seq<char>>, k: int) -> (Seq<u64>, u64)
    decreases k,
    when 0 <= k
{
    if k == 0 {
        (Seq::empty(), 1u64)
    } else {
        let prev = state_before(texts, k - 1);
        scan_line(texts[k - 1], 0, prev.0, prev.1, false, false)
    }
}

/// The group id a line at depth `stack` carries: the innermost open
/// group, if any.
pub open spec fn top_group(stack: Seq<u64>) -> Option<u64> {
    if stack.len() > 0 {
        Some(stack.last())
    } else {
        None
    }
}

/// Run the parenthesis scan of one line over an executable stack.
fn scan_line_exec(s: &Vec<char>, stack: &mut Vec<u64>, next: &mut u64)
    ensures
        (final(stack)@, *final(next)) == scan_line(s@, 0, old(stack)@, *old(next), false, false),
{
    let mut i: usize = 0;
    let mut esc = false;
    let mut inq = false;
    while i < s.len()
        invariant
            0 <= i <= s@.len(),
            scan_line(s@, i as int, stack@, *next, esc, inq) == scan_line(
                s@,
                0,
                old(stack)@,
                *old(next),
                false,
                false,
            ),
        decreases s@.len() - i,
    {
        let c = s[i];
        if esc {
            esc = false;
        } else if c == '^' {
            esc = true;
        } else if c == '"' {
            inq = !inq;
        } else if inq {
            esc = false;
        } else if c == '(' {
            stack.push(*next);
            if *next < u64::MAX {
                *next = *next + 1;
            }
        } else if c == ')' {
            if stack.len() > 0 {
                let _ = stack.pop();
            }
        }
        i = i + 1;
    }
    proof {
        assert(scan_line(s@, s@.len() as int, stack@, *next, esc, inq) == (stack@, *next));
    }
}

/// The text views of a sequence of joined lines.
pub open spec fn texts_of(js: Seq<JoinedLine>) -> Seq<Seq<char>> {
    js.map_values(|j: JoinedLine| j.text@)
}

/// Annotate joined lines with parenthesis block depth and group id.
///
/// A line's depth is the number of open groups at its start, and its
/// group id is the innermost of them; the scan honours double quotes
/// and caret escapes.
pub fn annotate_blocks(joined: Vec<JoinedLine>) -> (r: Vec<LogicalLine>)
    ensures
        r@.len() == joined@.len(),
        forall|k: int|
            0 <= k < joined@.len() ==> {
                let st = state_before(texts_of(joined@), k);
                &&& (#[trigger] r@[k]).text@ == joined@[k].text@
                &&& r@[k].phys_start == joined@[k].phys_start
                &&& r@[k].phys_end == joined@[k].phys_end
                &&& r@[k].group_depth == st.0.len()
                &&& r@[k].group_id == top_group(st.0)
            },
{
    let ghost texts = texts_of(joined@);
    let mut out: Vec<LogicalLine> = Vec::new();
    let mut stack: Vec<u64> = Vec::new();
    let mut next: u64 = 1;
    let mut k: usize = 0;
    while k < joined.len()
        invariant
            0 <= k <= joined@.len(),
            texts == texts_of(joined@),
            out@.len() == k,
            (stack@, next) == state_before(texts, k as int),
            forall|j: int|
                0 <= j < k ==> {
                    let st = state_before(texts_of(joined@), j);
                    &&& (#[trigger] out@[j]).text@ == joined@[j].text@
                    &&& out@[j].phys_start == joined@[j].phys_start
                    &&& out@[j].phys_end == joined@[j].phys_end
                    &&& out@[j].group_depth == st.0.len()
                    &&& out@[j].group_id == top_group(st.0)
                },
        decreases joined@.len() - k,
    {
        let jl = &joined[k];
        let depth = stack.len();
        let gid: Option<u64> = if stack.len() > 0 {
            Some(stack[stack.len() - 1])
        } else {
            None
        };
        let text = jl.text.clone();
        out.push(
            LogicalLine {
                text,
                phys_start: jl.phys_start,
                phys_end: jl.phys_end,
                group_id: gid,
                group_depth: depth,
            },
        );
        let cs = chars_of(&joined[k].text);
        proof {
            assert(texts[k as int] == joined@[k as int].text@);
        }
        scan_line_exec(&cs, &mut stack, &mut next);
        k = k + 1;
    }
    out
}

/// Consecutive logical spans never overlap: an earlier line's span ends
/// before a later line's span starts.
pub proof fn lemma_spans_disjoint(lines: Seq<Seq<char>>, k1: int, k2: int)
    requires
        0 <= k1 < k2 < spec_join(lines, 0).len(),
    ensures
        spec_join(lines, 0)[k1].2 < spec_join(lines, 0)[k2].1,
    decreases k2 - k1,
{
    lemma_join_partition(lines, 0);
    if k1 + 1 < k2 {
        lemma_spans_disjoint(lines, k1, k2 - 1);
    }
}

/// Full preprocessing pipeline: join continued lines, annotate block
/// depth, and build the physical-to-logical index map.
pub fn preprocess_lines(physical: &Vec<String>) -> (r: PreprocessResult)
    ensures
        ({
            let m = spec_join(views_of(physical@), 0);
            let texts = m.map_values(|t: (Seq<char>, int, int)| t.0);
            &&& r.logical@.len() == m.len()
            &&& forall|k: int|
                0 <= k < m.len() ==> {
                    let st = state_before(texts, k);
                    &&& (#[trigger] r.logical@[k]).text@ == m[k].0
                    &&& r.logical@[k].phys_start == m[k].1
                    &&& r.logical@[k].phys_end == m[k].2
                    &&& r.logical@[k].group_depth == st.0.len()
                    &&& r.logical@[k].group_id == top_group(st.0)
                }
            &&& r.phys_to_logical@.len() == physical@.len()
            &&& forall|k: int, p: int|
                0 <= k < m.len() && (#[trigger] m[k]).1 <= p <= m[k].2 ==> #[trigger] r.phys_to_logical@[p] == k
        }),
{
    let ghost lines = views_of(physical@);
    let ghost m = spec_join(lines, 0);
    let joined = join_continued_lines(physical);
    proof {
        lemma_join_partition(lines, 0);
        assert forall|k: int| 0 <= k < m.len() implies #[trigger] texts_of(joined@)[k]
            == m.map_values(|t: (Seq<char>, int, int)| t.0)[k] by {
            assert(joined_models(joined@)[k] == m[k]);
        }
        assert(texts_of(joined@) =~= m.map_values(|t: (Seq<char>, int, int)| t.0));
    }
    let ghost jm = joined_models(joined@);
    let ghost jseq = joined@;
    let logical = annotate_blocks(joined);
    proof {
        assert forall|k: int| 0 <= k < m.len() implies {
            &&& (#[trigger] logical@[k]).text@ == m[k].0
            &&& logical@[k].phys_start == m[k].1
            &&& logical@[k].phys_end == m[k].2
        } by {
            assert(jm[k] == m[k]);
            assert(jm[k] == joined_model(jseq[k]));
            assert(logical@[k].text@ == jseq[k].text@);
        }
    }
    let n = physical.len();
    let mut map: Vec<usize> = Vec::new();
    let mut q: usize = 0;
    while q < n
        invariant
            map@.len() == q <= n,
            forall|p: int| 0 <= p < q ==> map@[p] == 0,
        decreases n - q,
    {
        map.push(0);
        q = q + 1;
    }
    let mut li: usize = 0;
    while li < logical.len()
        invariant
            0 <= li <= logical@.len(),
            map@.len() == n == physical@.len(),
            m == spec_join(views_of(physical@), 0),
            lines == views_of(physical@),
            logical@.len() == m.len(),
            forall|k: int|
                0 <= k < m.len() ==> (#[trigger] logical@[k]).phys_start == m[k].1
                    && logical@[k].phys_end == m[k].2,
            forall|k: int, p: int|
                0 <= k < li && (#[trigger] m[k]).1 <= p <= m[k].2 ==> #[trigger] map@[p] == k,
        decreases logical@.len() - li,
    {
        proof {
            lemma_join_partition(lines, 0);
        }
        let start = logical[li].phys_start;
        let end = logical[li].phys_end;
        let mut p: usize = start;
        while p <= end
            invariant
                m[li as int].1 == start,
                m[li as int].2 == end,
                0 <= li < m.len(),
                start <= p <= end + 1,
                end < n,
                map@.len() == n,
                m == spec_join(views_of(physical@), 0),
                lines == views_of(physical@),
                forall|k: int, pp: int|
                    0 <= k < li && (#[trigger] m[k]).1 <= pp <= m[k].2 ==> #[trigger] map@[pp]
                        == k,
                forall|pp: int| start <= pp < p ==> map@[pp] == li,
            decreases end + 1 - p,
        {
            let ghost map0 = map@;
            map.set(p, li);
            proof {
                assert forall|k: int, pp: int|
                    0 <= k < li && (#[trigger] m[k]).1 <= pp <= m[k].2 implies #[trigger] map@[pp]
                        == k by {
                    lemma_join_partition(lines, 0);
                    lemma_spans_disjoint(lines, k, li as int);
                    assert(map0[pp] == k);
                    assert(pp <= m[k].2 < m[li as int].1 <= p);
                    assert(map@[pp] == map0[pp]);
                }
            }
            p = p + 1;
        }
        li = li + 1;
    }
    PreprocessResult { logical, phys_to_logical: map }
}

/// Every physical line lies in some logical span.
proof fn lemma_span_cover(lines: Seq<Seq<char>>, i: int, p: int)
    requires
        0 <= i <= p < lines.len(),
    ensures
        exists|k: int|
            0 <= k < spec_join(lines, i).len() && (#[trigger] spec_join(lines, i)[k]).1 <= p
                <= spec_join(lines, i)[k].2,
    decreases lines.len() - i,
{
    let m = spec_join(lines, i);
    lemma_span_end(lines, i);
    if p <= span_end(lines, i) {
        assert(m[0].1 <= p <= m[0].2);
    } else {
        lemma_span_cover(lines, span_end(lines, i) + 1, p);
        let rest = spec_join(lines, span_end(lines, i) + 1);
        let k = choose|k: int|
            0 <= k < rest.len() && (#[trigger] rest[k]).1 <= p <= rest[k].2;
        assert(m[k + 1] == rest[k]);
        assert(m[k + 1].1 <= p <= m[k + 1].2);
    }
}

/// The physical-to-logical map is a bijection on spans: each physical
/// index maps to the unique logical line whose span contains it, and
/// the entries of a span map back to exactly that line.
pub proof fn lemma_phys_logical_bijection(lines: Seq<Seq<char>>, map: Seq<usize>)
    requires
        map.len() == lines.len(),
        forall|k: int, p: int|
            0 <= k < spec_join(lines, 0).len() && (#[trigger] spec_join(lines, 0)[k]).1 <= p
                <= spec_join(lines, 0)[k].2 ==> #[trigger] map[p] == k,
    ensures
        forall|p: int|
            0 <= p < lines.len() ==> {
                let k = #[trigger] map[p] as int;
                &&& 0 <= k < spec_join(lines, 0).len()
                &&& spec_join(lines, 0)[k].1 <= p <= spec_join(lines, 0)[k].2
            },
        forall|k: int, p: int|
            0 <= k < spec_join(lines, 0).len() && 0 <= p < lines.len() ==> ((#[trigger] map[p]
                == k) <==> ((#[trigger] spec_join(lines, 0)[k]).1 <= p <= spec_join(
                lines,
                0,
            )[k].2)),
{
    let m = spec_join(lines, 0);
    assert forall|p: int| 0 <= p < lines.len() implies {
        let k = #[trigger] map[p] as int;
        &&& 0 <= k < m.len()
        &&& m[k].1 <= p <= m[k].2
    } by {
        lemma_span_cover(lines, 0, p);
        let k0 = choose|k: int| 0 <= k < m.len() && (#[trigger] m[k]).1 <= p <= m[k].2;
        assert(map[p] == k0);
    }
    assert forall|k: int, p: int|
        0 <= k < m.len() && 0 <= p < lines.len() implies ((#[trigger] map[p] == k) <==> ((
    #[trigger] m[k]).1 <= p <= m[k].2)) by {
        lemma_span_cover(lines, 0, p);
        let k0 = choose|kk: int| 0 <= kk < m.len() && (#[trigger] m[kk]).1 <= p <= m[kk].2;
        assert(map[p] == k0);
        if map[p] == k && k != k0 {
            if k < k0 {
                lemma_spans_disjoint(lines, k, k0);
            } else {
                lemma_spans_disjoint(lines, k0, k);
            }
        }
    }
}

/// A script with no caret continuations maps one physical line to one
/// logical line, with the same text.
pub proof fn lemma_no_continuation_identity(lines: Seq<Seq<char>>, i: int)
    requires
        0 <= i,
        forall|j: int| 0 <= j < lines.len() ==> !line_continues(#[trigger] lines[j]),
    ensures
        spec_join(lines, i).len() == if i < lines.len() {
            lines.len() - i
        } else {
            0
        },
        forall|k: int|
            0 <= k < spec_join(lines, i).len() ==> #[trigger] spec_join(lines, i)[k] == (
                lines[i + k],
                i + k,
                i + k,
            ),
    decreases lines.len() - i,
{
    if i < lines.len() {
        assert(span_end(lines, i) == i);
        assert(span_text(lines, i) == lines[i]);
        lemma_no_continuation_identity(lines, i + 1);
        let m = spec_join(lines, i);
        let rest = spec_join(lines, i + 1);
        assert forall|k: int| 0 <= k < m.len() implies #[trigger] m[k] == (
            lines[i + k],
            i + k,
            i + k,
        ) by {
            if k > 0 {
                assert(m[k] == rest[k - 1]);
            }
        }
    }
}

/// Number of group-opening parentheses in the line from `i` on, outside
/// quotes and caret escapes.
pub open spec fn opens_from(s: Seq<char>, i: int, esc: bool, inq: bool) -> int
    decreases s.len() - i,
    when 0 <= i
{
    if i >= s.len() {
        0
    } else if esc {
        opens_from(s, i + 1, false, inq)
    } else if s[i] == '^' {
        opens_from(s, i + 1, true, inq)
    } else if s[i] == '"' {
        opens_from(s, i + 1, false, !inq)
    } else if inq {
        opens_from(s, i + 1, false, true)
    } else if s[i] == '(' {
        1 + opens_from(s, i + 1, false, false)
    } else {
        opens_from(s, i + 1, false, false)
    }
}

/// Number of group-closing parentheses, likewise.
pub open spec fn closes_from(s: Seq<char>, i: int, esc: bool, inq: bool) -> int
    decreases s.len() - i,
    when 0 <= i
{
    if i >= s.len() {
        0
    } else if esc {
        closes_from(s, i + 1, false, inq)
    } else if s[i] == '^' {
        closes_from(s, i + 1, true, inq)
    } else if s[i] == '"' {
        closes_from(s, i + 1, false, !inq)
    } else if inq {
        closes_from(s, i + 1, false, true)
    } else if s[i] == ')' {
        1 + closes_from(s, i + 1, false, false)
    } else {
        closes_from(s, i + 1, false, false)
    }
}

/// Net parenthesis delta of a line, honouring quotes and caret escapes.
pub open spec fn spec_paren_delta(s: Seq<char>) -> int {
    opens_from(s, 0, false, false) - closes_from(s, 0, false, false)
}

proof fn lemma_paren_counts_bound(s: Seq<char>, i: int, esc: bool, inq: bool)
    requires
        0 <= i <= s.len(),
    ensures
        0 <= opens_from(s, i, esc, inq) <= s.len() - i,
        0 <= closes_from(s, i, esc, inq) <= s.len() - i,
    decreases s.len() - i,
{
    if i < s.len() {
        lemma_paren_counts_bound(s, i + 1, false, false);
        lemma_paren_counts_bound(s, i + 1, true, inq);
        lemma_paren_counts_bound(s, i + 1, false, inq);
        lemma_paren_counts_bound(s, i + 1, false, !inq);
        lemma_paren_counts_bound(s, i + 1, false, true);
    }
}

/// Count the opening and closing parentheses of a line, outside quotes
/// and caret escapes.
pub fn paren_counts(s: &Vec<char>) -> (r: (usize, usize))
    ensures
        r.0 == opens_from(s@, 0, false, false),
        r.1 == closes_from(s@, 0, false, false),
{
    proof {
        lemma_paren_counts_bound(s@, 0, false, false);
    }
    let mut pos: usize = 0;
    let mut neg: usize = 0;
    let mut i: usize = 0;
    let mut esc = false;
    let mut inq = false;
    while i < s.len()
        invariant
            0 <= i <= s@.len(),
            pos <= i,
            neg <= i,
            opens_from(s@, 0, false, false) == pos + opens_from(s@, i as int, esc, inq),
            closes_from(s@, 0, false, false) == neg + closes_from(s@, i as int, esc, inq),
        decreases s@.len() - i,
    {
        let c = s[i];
        if esc {
            esc = false;
        } else if c == '^' {
            esc = true;
        } else if c == '"' {
            inq = !inq;
        } else if inq {
            esc = false;
        } else if c == '(' {
            pos = pos + 1;
        } else if c == ')' {
            neg = neg + 1;
        }
        i = i + 1;
    }
    (pos, neg)
}

/// Net parenthesis delta of a line, honouring quotes and `^` escapes.
pub fn paren_delta(line: &str) -> (r: i32)
    requires
        line@.len() <= 0x7FFF_FFFF,
    ensures
        r == spec_paren_delta(line@),
{
    let cs = chars_of(line);
    proof {
        lemma_paren_counts_bound(cs@, 0, false, false);
    }
    let (pos, neg) = paren_counts(&cs);
    (pos as i32) - (neg as i32)
}

/// The lowest running parenthesis depth reached while scanning the line
/// from `i` with starting depth `d`.
pub open spec fn min_depth_from(s: Seq<char>, i: int, d: int, esc: bool, inq: bool) -> int
    decreases s.len() - i,
    when 0 <= i
{
    if i >= s.len() {
        d
    } else if esc {
        vstd::math::min(d, min_depth_from(s, i + 1, d, false, inq))
    } else if s[i] == '^' {
        vstd::math::min(d, min_depth_from(s, i + 1, d, true, inq))
    } else if s[i] == '"' {
        vstd::math::min(d, min_depth_from(s, i + 1, d, false, !inq))
    } else if inq {
        vstd::math::min(d, min_depth_from(s, i + 1, d, false, true))
    } else if s[i] == '(' {
        vstd::math::min(d, min_depth_from(s, i + 1, d + 1, false, false))
    } else if s[i] == ')' {
        vstd::math::min(d, min_depth_from(s, i + 1, d - 1, false, false))
    } else {
        vstd::math::min(d, min_depth_from(s, i + 1, d, false, false))
    }
}

/// When the running depth never dips below zero, the clamped group
/// stack evolves exactly by the line's parenthesis delta.
proof fn lemma_scan_conserves(
    s: Seq<char>,
    i: int,
    stack: Seq<u64>,
    next: u64,
    esc: bool,
    inq: bool,
)
    requires
        0 <= i <= s.len(),
        min_depth_from(s, i, stack.len() as int, esc, inq) >= 0,
    ensures
        scan_line(s, i, stack, next, esc, inq).0.len() == stack.len() + opens_from(s, i, esc, inq)
            - closes_from(s, i, esc, inq),
    decreases s.len() - i,
{
    if i < s.len() {
        if esc {
            lemma_scan_conserves(s, i + 1, stack, next, false, inq);
        } else if s[i] == '^' {
            lemma_scan_conserves(s, i + 1, stack, next, true, inq);
        } else if s[i] == '"' {
            lemma_scan_conserves(s, i + 1, stack, next, false, !inq);
        } else if inq {
            lemma_scan_conserves(s, i + 1, stack, next, false, true);
        } else if s[i] == '(' {
            lemma_scan_conserves(s, i + 1, stack.push(next), next_id(next), false, false);
        } else if s[i] == ')' {
            assert(min_depth_from(s, i + 1, stack.len() - 1, false, false) >= 0);
            assert(stack.len() >= 1) by {
                assert(min_depth_from(s, i + 1, stack.len() - 1, false, false) <= stack.len()
                    - 1) by {
                    lemma_min_depth_at_most_start(s, i + 1, stack.len() - 1, false, false);
                }
            }
            lemma_scan_conserves(s, i + 1, stack.drop_last(), next, false, false);
        } else {
            lemma_scan_conserves(s, i + 1, stack, next, false, false);
        }
    }
}

proof fn lemma_min_depth_at_most_start(s: Seq<char>, i: int, d: int, esc: bool, inq: bool)
    requires
        0 <= i <= s.len(),
    ensures
        min_depth_from(s, i, d, esc, inq) <= d,
    decreases s.len() - i,
{
}

/// Sum of the parenthesis deltas of the first `k` line texts.
pub open spec fn total_delta(texts: Seq<Seq<char>>, k: int) -> int
    decreases k,
    when 0 <= k
{
    if k == 0 {
        0
    } else {
        total_delta(texts, k - 1) + spec_paren_delta(texts[k - 1])
    }
}

/// The running parenthesis depth never dips below zero anywhere in the
/// script.
pub open spec fn depths_never_negative(texts: Seq<Seq<char>>) -> bool {
    forall|k: int|
        0 <= k < texts.len() ==> min_depth_from(
            #[trigger] texts[k],
            0,
            total_delta(texts, k),
            false,
            false,
        ) >= 0
}

proof fn lemma_depth_conservation_upto(texts: Seq<Seq<char>>, k: int)
    requires
        0 <= k <= texts.len(),
        depths_never_negative(texts),
    ensures
        state_before(texts, k).0.len() == total_delta(texts, k),
    decreases k,
{
    if k > 0 {
        lemma_depth_conservation_upto(texts, k - 1);
        let prev = state_before(texts, k - 1);
        lemma_scan_conserves(texts[k - 1], 0, prev.0, prev.1, false, false);
    }
}

/// Paren-depth conservation: when the running depth never goes
/// negative, the depth after the last logical line equals the sum of
/// the per-line parenthesis deltas; a balanced script ends at depth
/// zero.  (With a negative dip the tracked depth is clamped at zero and
/// the sum understates it.)
pub proof fn lemma_paren_depth_conservation(texts: Seq<Seq<char>>)
    requires
        depths_never_negative(texts),
    ensures
        state_before(texts, texts.len() as int).0.len() == total_delta(
            texts,
            texts.len() as int,
        ),
        total_delta(texts, texts.len() as int) == 0 ==> state_before(
            texts,
            texts.len() as int,
        ).0.len() == 0,
{
    lemma_depth_conservation_upto(texts, texts.len() as int);
}

} // verus!