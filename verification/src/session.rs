//! The sentinel protocol of the shell session.  The child process and
//! its pipes live outside the library; this module builds the exact
//! byte strings written to the child and interprets the lines read
//! back: every command is followed by one sentinel line carrying the
//! exit code.

use vstd::prelude::*;

verus! {

use crate::preprocess::spec_paren_delta;
use crate::text::{
    chars_of,
    chars_start,
    concat_chars,
    parse_i32_chars,
    push_all,
    spec_parse_i32,
    spec_trim,
    starts_with,
    string_from_chars,
    sub_chars,
    trim_chars,
};

/// A line ends one command when its trimmed text begins with the
/// sentinel marker.
pub open spec fn is_sentinel_line(line: Seq<char>) -> bool {
    starts_with(spec_trim(line), "__CMD_DONE__"@)
}

/// The exit code a sentinel line carries: the trimmed remainder after
/// the marker, read as a signed decimal integer; anything unreadable
/// counts as zero.
pub open spec fn spec_sentinel_code(line: Seq<char>) -> int {
    let t = spec_trim(line);
    let rest = spec_trim(t.skip("__CMD_DONE__"@.len() as int));
    match spec_parse_i32(rest) {
        Some(v) => v,
        None => 0,
    }
}

/// What the session writes to the child for one command: the command
/// itself with stderr merged into stdout, then an echo of the sentinel
/// and the current error level, CRLF-terminated.
pub fn wrap_command(cmd: &str) -> (r: String)
    ensures
        r@ == cmd@ + " 2>&1 & echo __CMD_DONE__ !ERRORLEVEL!\r\n"@,
{
    let a = chars_of(cmd);
    let b = chars_of(" 2>&1 & echo __CMD_DONE__ !ERRORLEVEL!\r\n");
    let joined = concat_chars(&a, &b);
    string_from_chars(&joined)
}

/// Recognise a sentinel line and extract its exit code.
pub fn check_sentinel(line: &str) -> (r: Option<i32>)
    ensures
        ({
            match r {
                Some(code) => is_sentinel_line(line@) && code as int == spec_sentinel_code(
                    line@,
                ),
                None => !is_sentinel_line(line@),
            }
        }),
{
    let cs = chars_of(line);
    let t = trim_chars(&cs);
    let marker = chars_of("__CMD_DONE__");
    if !chars_start(&t, &marker) {
        return None;
    }
    let rest = sub_chars(&t, marker.len(), t.len());
    proof {
        assert(rest@ =~= spec_trim(line@).skip("__CMD_DONE__"@.len() as int));
    }
    let rest_t = trim_chars(&rest);
    match parse_i32_chars(&rest_t) {
        Some(v) => Some(v),
        None => Some(0),
    }
}

/// Concatenation of the texts of `lines[0..k]`.
pub open spec fn concat_views(lines: Seq<Seq<char>>, k: int) -> Seq<char>
    decreases k,
    when 0 <= k
{
    if k <= 0 {
        Seq::empty()
    } else {
        concat_views(lines, k - 1) + lines[k - 1]
    }
}

/// The views of a sequence of line strings.
pub open spec fn line_views(lines: Seq<String>) -> Seq<Seq<char>> {
    lines.map_values(|l: String| l@)
}

/// One command's worth of lines read back from the child: the output
/// it printed, the exit code, and how many lines were consumed.
pub struct SessionRead {
    pub output: String,
    pub exit_code: i32,
    pub consumed: usize,
}

/// Scan lines read from the child for the sentinel: everything before
/// the first sentinel line is the command's output (terminators as
/// read), the sentinel line itself carries the exit code, and exactly
/// the lines up to and including it are consumed.  `None` when no
/// sentinel line is present (the child ended early: an I/O failure).
pub fn collect_until_sentinel(lines: &Vec<String>) -> (r: Option<SessionRead>)
    ensures
        ({
            let vs = line_views(lines@);
            match r {
                Some(sr) => {
                    &&& 0 < sr.consumed <= vs.len()
                    &&& is_sentinel_line(vs[sr.consumed - 1])
                    &&& forall|j: int| 0 <= j < sr.consumed - 1 ==> !is_sentinel_line(
                        #[trigger] vs[j],
                    )
                    &&& sr.exit_code as int == spec_sentinel_code(vs[sr.consumed - 1])
                    &&& sr.output@ == concat_views(vs, sr.consumed - 1)
                },
                None => forall|j: int| 0 <= j < vs.len() ==> !is_sentinel_line(
                    #[trigger] vs[j],
                ),
            }
        }),
{
    let ghost vs = line_views(lines@);
    let mut out: Vec<char> = Vec::new();
    let mut i: usize = 0;
    proof {
        assert(out@ =~= concat_views(vs, 0));
    }
    while i < lines.len()
        invariant
            0 <= i <= lines@.len(),
            vs == line_views(lines@),
            out@ == concat_views(vs, i as int),
            forall|j: int| 0 <= j < i ==> !is_sentinel_line(#[trigger] vs[j]),
        decreases lines@.len() - i,
    {
        proof {
            assert(vs[i as int] == lines@[i as int]@);
        }
        match check_sentinel(&lines[i]) {
            Some(code) => {
                let output = string_from_chars(&out);
                return Some(SessionRead { output, exit_code: code, consumed: i + 1 });
            },
            None => {
                let cs = chars_of(&lines[i]);
                push_all(&mut out, &cs);
                proof {
                    assert(out@ =~= concat_views(vs, i + 1));
                }
                i = i + 1;
            },
        }
    }
    None
}

/// Sentinel integrity: of the lines one command consumes, the sentinel
/// is exactly the last one, and the exit code handed back is the
/// integer it carries.
pub proof fn lemma_sentinel_integrity(lines: Seq<Seq<char>>, sr: SessionRead)
    requires
        0 < sr.consumed <= lines.len(),
        is_sentinel_line(lines[sr.consumed - 1]),
        forall|j: int| 0 <= j < sr.consumed - 1 ==> !is_sentinel_line(#[trigger] lines[j]),
        sr.exit_code as int == spec_sentinel_code(lines[sr.consumed - 1]),
    ensures
        forall|j: int|
            0 <= j < sr.consumed ==> (is_sentinel_line(#[trigger] lines[j]) <==> j
                == sr.consumed - 1),
        sr.exit_code as int == spec_sentinel_code(lines[sr.consumed - 1]),
{
}

/// Whether a command has more opening than closing parentheses and so
/// cannot be sent as a single line.
pub fn needs_continuation(cmd: &str) -> (r: bool)
    ensures
        r == (spec_paren_delta(cmd@) > 0),
{
    let cs = chars_of(cmd);
    let (pos, neg) = crate::preprocess::paren_counts(&cs);
    pos > neg
}

/// The body of the temporary script a multi-line block is executed
/// through: echo suppressed, then each line CRLF-terminated.
pub open spec fn spec_block_body(lines: Seq<Seq<char>>, i: int) -> Seq<char>
    decreases lines.len() - i,
    when 0 <= i
{
    if i >= lines.len() {
        Seq::empty()
    } else {
        lines[i] + "\r\n"@ + spec_block_body(lines, i + 1)
    }
}

/// Build the temporary block script: `@echo off` then the block's
/// lines, each CRLF-terminated, preserving batch block boundaries.
pub fn block_script(lines: &Vec<String>) -> (r: String)
    ensures
        r@ == "@echo off\r\n"@ + spec_block_body(line_views(lines@), 0),
{
    let ghost vs = line_views(lines@);
    let mut out = chars_of("@echo off\r\n");
    let ghost head = out@;
    let mut i: usize = 0;
    while i < lines.len()
        invariant
            0 <= i <= lines@.len(),
            vs == line_views(lines@),
            head == "@echo off\r\n"@,
            out@ + spec_block_body(vs, i as int) == head + spec_block_body(vs, 0),
        decreases lines@.len() - i,
    {
        proof {
            assert(vs[i as int] == lines@[i as int]@);
        }
        let cs = chars_of(&lines[i]);
        let ghost out0 = out@;
        push_all(&mut out, &cs);
        let crlf = chars_of("\r\n");
        push_all(&mut out, &crlf);
        proof {
            assert(spec_block_body(vs, i as int) == vs[i as int] + "\r\n"@ + spec_block_body(
                vs,
                i + 1,
            ));
            assert(out@ + spec_block_body(vs, i + 1) =~= out0 + spec_block_body(vs, i as int));
        }
        i = i + 1;
    }
    proof {
        assert(spec_block_body(vs, vs.len() as int) =~= Seq::<char>::empty());
        assert(out@ + Seq::<char>::empty() =~= out@);
    }
    string_from_chars(&out)
}

/// The fixed name of the temporary block script.
pub fn block_file_name() -> (r: String)
    ensures
        r@ == "__temp_block__.bat"@,
{
    let cs = chars_of("__temp_block__.bat");
    string_from_chars(&cs)
}

/// The command that runs the temporary block script in the session.
pub fn block_invocation() -> (r: String)
    ensures
        r@ == "call __temp_block__.bat"@,
{
    let cs = chars_of("call __temp_block__.bat");
    string_from_chars(&cs)
}

/// The command that removes the temporary block script, quietly.
pub fn block_cleanup() -> (r: String)
    ensures
        r@ == "del __temp_block__.bat >nul 2>&1"@,
{
    let cs = chars_of("del __temp_block__.bat >nul 2>&1");
    string_from_chars(&cs)
}

} // verus!
