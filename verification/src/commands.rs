//! The command splitter: tokenises one logical line into conjunctive
//! parts around `&`, `&&` and `||`, honouring double quotes and caret
//! escapes, plus the comment test and whitespace normalization.

use vstd::prelude::*;

verus! {

use crate::text::{
    chars_of,
    chars_start,
    chars_start_ci,
    normalize_chars,
    spec_normalize_ws,
    spec_trim,
    starts_with,
    starts_with_ci,
    string_from_chars,
    trim_chars,
};

/// The operator connecting a command part to the next one.
#[derive(Debug, Clone, Copy, PartialEq, Eq, Structural)]
pub enum CommandOp {
    /// `&`: the next part always runs.
    Unconditional,
    /// `&&`: the next part runs only on exit code zero.
    And,
    /// `||`: the next part runs only on a non-zero exit code.
    Or,
}

/// A single command part of a composite command line; `op` connects it
/// to the next part and is absent on the final part.
pub struct CommandPart {
    pub text: String,
    pub op: Option<CommandOp>,
}

/// The (text, operator) pair a `CommandPart` stands for.
pub open spec fn part_model(p: CommandPart) -> (Seq<char>, Option<CommandOp>) {
    (p.text@, p.op)
}

pub open spec fn parts_model(v: Seq<CommandPart>) -> Seq<(Seq<char>, Option<CommandOp>)> {
    v.map_values(|p: CommandPart| part_model(p))
}

/// A finished part: trimmed, and kept only when something is left.
pub open spec fn finished_part(cur: Seq<char>, op: Option<CommandOp>) -> Seq<
    (Seq<char>, Option<CommandOp>),
> {
    if spec_trim(cur).len() > 0 {
        seq![(spec_trim(cur), op)]
    } else {
        Seq::empty()
    }
}

/// The split of the line from position `i` on, given the quote and
/// escape state and the text collected for the current part.  Outside
/// quotes and escapes, `&&` cuts with `And`, `||` with `Or`, a lone `&`
/// with `Unconditional`; a lone `|` is a shell pipe and stays in the
/// part.  Every part is trimmed and empty parts are dropped.
pub open spec fn split_from(
    s: Seq<char>,
    i: int,
    esc: bool,
    inq: bool,
    cur: Seq<char>,
) -> Seq<(Seq<char>, Option<CommandOp>)>
    decreases s.len() - i,
    when 0 <= i
{
    if i >= s.len() {
        finished_part(cur, None)
    } else if esc {
        split_from(s, i + 1, false, inq, cur.push(s[i]))
    } else if s[i] == '^' {
        split_from(s, i + 1, true, inq, cur.push('^'))
    } else if s[i] == '"' {
        split_from(s, i + 1, false, !inq, cur.push('"'))
    } else if !inq && s[i] == '&' {
        if i + 1 < s.len() && s[i + 1] == '&' {
            finished_part(cur, Some(CommandOp::And)) + split_from(
                s,
                i + 2,
                false,
                false,
                Seq::empty(),
            )
        } else {
            finished_part(cur, Some(CommandOp::Unconditional)) + split_from(
                s,
                i + 1,
                false,
                false,
                Seq::empty(),
            )
        }
    } else if !inq && s[i] == '|' && i + 1 < s.len() && s[i + 1] == '|' {
        finished_part(cur, Some(CommandOp::Or)) + split_from(s, i + 2, false, false, Seq::empty())
    } else {
        split_from(s, i + 1, false, inq, cur.push(s[i]))
    }
}

/// The command parts of one logical line.
pub open spec fn spec_split(s: Seq<char>) -> Seq<(Seq<char>, Option<CommandOp>)> {
    split_from(s, 0, false, false, Seq::empty())
}

/// Split a command line by the composite operators `&`, `&&` and `||`.
pub fn split_composite_command(line: &str) -> (r: Vec<CommandPart>)
    ensures
        parts_model(r@) == spec_split(line@),
{
    let s = chars_of(line);
    split_composite_chars(&s)
}

/// Split an already char-decomposed command line.
pub fn split_composite_chars(s: &Vec<char>) -> (r: Vec<CommandPart>)
    ensures
        parts_model(r@) == spec_split(s@),
{
    let mut out: Vec<CommandPart> = Vec::new();
    let mut cur: Vec<char> = Vec::new();
    let mut i: usize = 0;
    let mut esc = false;
    let mut inq = false;
    proof {
        assert(parts_model(out@) + spec_split(s@) =~= spec_split(s@));
        assert(cur@ =~= Seq::<char>::empty());
    }
    while i < s.len()
        invariant
            0 <= i <= s@.len(),
            spec_split(s@) == parts_model(out@) + split_from(s@, i as int, esc, inq, cur@),
        decreases s@.len() - i,
    {
        let c = s[i];
        if esc {
            cur.push(c);
            esc = false;
            i = i + 1;
        } else if c == '^' {
            cur.push('^');
            esc = true;
            i = i + 1;
        } else if c == '"' {
            cur.push('"');
            inq = !inq;
            i = i + 1;
        } else if !inq && c == '&' {
            let double = i + 1 < s.len() && s[i + 1] == '&';
            let op = if double {
                CommandOp::And
            } else {
                CommandOp::Unconditional
            };
            let text = trim_chars(&cur);
            let ghost out0 = out@;
            if text.len() > 0 {
                out.push(CommandPart { text: string_from_chars(&text), op: Some(op) });
                proof {
                    assert(parts_model(out@) =~= parts_model(out0) + finished_part(
                        cur@,
                        Some(op),
                    ));
                }
            } else {
                proof {
                    assert(parts_model(out@) =~= parts_model(out0) + finished_part(
                        cur@,
                        Some(op),
                    ));
                }
            }
            let ghost cur0 = cur@;
            cur = Vec::new();
            proof {
                let ghost ni: int = if double {
                    i + 2
                } else {
                    i + 1
                };
                assert(cur@ =~= Seq::<char>::empty());
                assert(split_from(s@, i as int, false, false, cur0) == finished_part(
                    cur0,
                    Some(op),
                ) + split_from(s@, ni, false, false, Seq::empty()));
                assert(parts_model(out@) + split_from(s@, ni, false, false, Seq::empty())
                    =~= parts_model(out0) + (finished_part(cur0, Some(op)) + split_from(
                    s@,
                    ni,
                    false,
                    false,
                    Seq::empty(),
                )));
            }
            if double {
                i = i + 2;
            } else {
                i = i + 1;
            }
        } else if !inq && c == '|' && i + 1 < s.len() && s[i + 1] == '|' {
            let text = trim_chars(&cur);
            let ghost out0 = out@;
            if text.len() > 0 {
                out.push(
                    CommandPart { text: string_from_chars(&text), op: Some(CommandOp::Or) },
                );
                proof {
                    assert(parts_model(out@) =~= parts_model(out0) + finished_part(
                        cur@,
                        Some(CommandOp::Or),
                    ));
                }
            } else {
                proof {
                    assert(parts_model(out@) =~= parts_model(out0) + finished_part(
                        cur@,
                        Some(CommandOp::Or),
                    ));
                }
            }
            let ghost cur0 = cur@;
            cur = Vec::new();
            proof {
                assert(cur@ =~= Seq::<char>::empty());
                assert(split_from(s@, i as int, false, false, cur0) == finished_part(
                    cur0,
                    Some(CommandOp::Or),
                ) + split_from(s@, i + 2, false, false, Seq::empty()));
                assert(parts_model(out@) + split_from(s@, i + 2, false, false, Seq::empty())
                    =~= parts_model(out0) + (finished_part(cur0, Some(CommandOp::Or))
                    + split_from(s@, i + 2, false, false, Seq::empty())));
            }
            i = i + 2;
        } else {
            cur.push(c);
            i = i + 1;
        }
    }
    let text = trim_chars(&cur);
    let ghost out0 = out@;
    if text.len() > 0 {
        out.push(CommandPart { text: string_from_chars(&text), op: None });
        proof {
            assert(parts_model(out@) =~= parts_model(out0) + finished_part(cur@, None));
        }
    } else {
        proof {
            assert(parts_model(out@) =~= parts_model(out0) + finished_part(cur@, None));
        }
    }
    proof {
        assert(split_from(s@, s@.len() as int, esc, inq, cur@) == finished_part(cur@, None));
        assert(parts_model(out@) =~= spec_split(s@));
    }
    out
}

/// Whether the line is a comment or blank: empty after trimming, or
/// starting with `REM ` / `REM<tab>` (any case) or `::`.
pub open spec fn is_comment_spec(s: Seq<char>) -> bool {
    let t = spec_trim(s);
    ||| t.len() == 0
    ||| starts_with_ci(t, seq!['r', 'e', 'm', ' '])
    ||| starts_with_ci(t, seq!['r', 'e', 'm', '\t'])
    ||| starts_with(t, seq![':', ':'])
}

/// Check whether a line is a comment or blank.
pub fn is_comment(line: &str) -> (r: bool)
    ensures
        r == is_comment_spec(line@),
{
    let s = chars_of(line);
    is_comment_chars(&s)
}

/// Comment test over an already char-decomposed line.
pub fn is_comment_chars(s: &Vec<char>) -> (r: bool)
    ensures
        r == is_comment_spec(s@),
{
    let t = trim_chars(s);
    if t.len() == 0 {
        return true;
    }
    let mut rem_space: Vec<char> = Vec::new();
    rem_space.push('r');
    rem_space.push('e');
    rem_space.push('m');
    rem_space.push(' ');
    proof {
        assert(rem_space@ =~= seq!['r', 'e', 'm', ' ']);
    }
    if chars_start_ci(&t, &rem_space) {
        return true;
    }
    let mut rem_tab: Vec<char> = Vec::new();
    rem_tab.push('r');
    rem_tab.push('e');
    rem_tab.push('m');
    rem_tab.push('\t');
    proof {
        assert(rem_tab@ =~= seq!['r', 'e', 'm', '\t']);
    }
    if chars_start_ci(&t, &rem_tab) {
        return true;
    }
    let mut colons: Vec<char> = Vec::new();
    colons.push(':');
    colons.push(':');
    proof {
        assert(colons@ =~= seq![':', ':']);
    }
    chars_start(&t, &colons)
}

/// Collapse every whitespace run to a single space and trim the ends.
pub fn normalize_whitespace(line: &str) -> (r: String)
    ensures
        r@ == spec_normalize_ws(line@),
{
    let s = chars_of(line);
    let n = normalize_chars(&s);
    string_from_chars(&n)
}

/// Whether the operator before a part lets it run under the given exit
/// code: `&` and a missing operator always do, `&&` only on zero, `||`
/// only on non-zero.
pub open spec fn op_permits(op: Option<CommandOp>, code: int) -> bool {
    match op {
        None => true,
        Some(CommandOp::Unconditional) => true,
        Some(CommandOp::And) => code == 0,
        Some(CommandOp::Or) => code != 0,
    }
}

/// Executable twin of `op_permits`.
pub fn op_permits_exec(op: &Option<CommandOp>, code: i32) -> (r: bool)
    ensures
        r == op_permits(*op, code as int),
{
    match op {
        None => true,
        Some(CommandOp::Unconditional) => true,
        Some(CommandOp::And) => code == 0,
        Some(CommandOp::Or) => code != 0,
    }
}

} // verus!
