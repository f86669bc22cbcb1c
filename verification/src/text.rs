//! Character-level text utilities shared by the preprocessor, the
//! command splitter and the interpreter.  All scanning works on
//! `Vec<char>`, with `Seq<char>` as the specification model.

use vstd::prelude::*;

verus! {

use crate::is_space_char;
use crate::is_space;

/// Collect the characters of a string slice into a vector.
pub fn chars_of(s: &str) -> (r: Vec<char>)
    ensures
        r@ == s@,
{
    broadcast use vstd::string::next_postcondition;
    broadcast use vstd::string::axiom_spec_iter;

    let mut v: Vec<char> = Vec::new();
    let mut it = s.chars();
    loop
        invariant
            vstd::std_specs::iter::IteratorSpec::decrease(&it) is Some,
            v@ + vstd::std_specs::iter::IteratorSpec::remaining(&it) == s@,
        ensures
            v@ == s@,
        decreases vstd::std_specs::iter::IteratorSpec::decrease(&it)->0,
    {
        match it.next() {
            Some(c) => {
                v.push(c);
            },
            None => {
                proof {
                    assert(v@ =~= s@);
                }
                break ;
            },
        }
    }
    v
}

/// Relies on `String: FromIterator<char>` from std: collecting an
/// iterator of characters builds the string of exactly those
/// characters, in order.
#[verifier::external_body]
pub fn string_from_chars(v: &Vec<char>) -> (r: String)
    ensures
        r@ == v@,
{
    v.iter().collect()
}

/// Index of the first character that is not whitespace; the length if
/// every character is whitespace.
pub open spec fn first_non_space(s: Seq<char>) -> int
    decreases s.len(),
{
    if s.len() == 0 {
        0
    } else if is_space_char(s[0]) {
        1 + first_non_space(s.drop_first())
    } else {
        0
    }
}

pub proof fn lemma_first_non_space(s: Seq<char>)
    ensures
        0 <= first_non_space(s) <= s.len(),
        forall|i: int| 0 <= i < first_non_space(s) ==> is_space_char(s[i]),
        first_non_space(s) < s.len() ==> !is_space_char(s[first_non_space(s)]),
    decreases s.len(),
{
    if s.len() > 0 && is_space_char(s[0]) {
        lemma_first_non_space(s.drop_first());
        assert forall|i: int| 0 <= i < first_non_space(s) implies is_space_char(s[i]) by {
            if i > 0 {
                assert(s.drop_first()[i - 1] == s[i]);
            }
        }
        if first_non_space(s) < s.len() {
            assert(s.drop_first()[first_non_space(s) - 1] == s[first_non_space(s)]);
        }
    }
}

/// Index one past the last character that is not whitespace; zero if
/// every character is whitespace.
pub open spec fn last_non_space_end(s: Seq<char>) -> int
    decreases s.len(),
{
    if s.len() == 0 {
        0
    } else if is_space_char(s.last()) {
        last_non_space_end(s.drop_last())
    } else {
        s.len() as int
    }
}

pub proof fn lemma_last_non_space_end(s: Seq<char>)
    ensures
        0 <= last_non_space_end(s) <= s.len(),
        forall|i: int| last_non_space_end(s) <= i < s.len() ==> is_space_char(s[i]),
        last_non_space_end(s) > 0 ==> !is_space_char(s[last_non_space_end(s) - 1]),
    decreases s.len(),
{
    if s.len() > 0 && is_space_char(s.last()) {
        lemma_last_non_space_end(s.drop_last());
        assert forall|i: int| last_non_space_end(s) <= i < s.len() implies is_space_char(s[i]) by {
            if i < s.len() - 1 {
                assert(s.drop_last()[i] == s[i]);
            }
        }
        if last_non_space_end(s) > 0 {
            assert(s.drop_last()[last_non_space_end(s) - 1] == s[last_non_space_end(s) - 1]);
        }
    }
}

/// The text with leading and trailing whitespace removed.
pub open spec fn spec_trim(s: Seq<char>) -> Seq<char> {
    if first_non_space(s) == s.len() {
        Seq::empty()
    } else {
        s.subrange(first_non_space(s), last_non_space_end(s))
    }
}

pub proof fn lemma_trim(s: Seq<char>)
    ensures
        spec_trim(s).len() <= s.len(),
        spec_trim(s).len() > 0 ==> !is_space_char(spec_trim(s)[0]),
        spec_trim(s).len() > 0 ==> !is_space_char(spec_trim(s).last()),
{
    lemma_first_non_space(s);
    lemma_last_non_space_end(s);
    if first_non_space(s) < s.len() {
        assert(!is_space_char(s[first_non_space(s)]));
        if first_non_space(s) >= last_non_space_end(s) {
            assert(is_space_char(s[first_non_space(s)]));
        }
    }
}

/// Executable trim over a character vector.
pub fn trim_chars(s: &Vec<char>) -> (r: Vec<char>)
    ensures
        r@ == spec_trim(s@),
{
    proof {
        lemma_first_non_space(s@);
        lemma_last_non_space_end(s@);
    }
    let mut start: usize = 0;
    while start < s.len() && is_space(s[start as usize])
        invariant
            0 <= start <= s@.len(),
            forall|i: int| 0 <= i < start ==> is_space_char(s@[i]),
            start <= first_non_space(s@),
        decreases s@.len() - start,
    {
        proof {
            if start + 1 > first_non_space(s@) {
                lemma_first_non_space(s@);
            }
        }
        start = start + 1;
    }
    proof {
        lemma_first_non_space(s@);
        assert(start == first_non_space(s@));
    }
    if start == s.len() {
        let r: Vec<char> = Vec::new();
        assert(r@ =~= spec_trim(s@));
        return r;
    }
    let mut end: usize = s.len();
    while end > start && is_space(s[end - 1])
        invariant
            start <= end <= s@.len(),
            start == first_non_space(s@),
            start < s@.len(),
            forall|i: int| end <= i < s@.len() ==> is_space_char(s@[i]),
            end >= last_non_space_end(s@),
        decreases end,
    {
        proof {
            if end - 1 < last_non_space_end(s@) {
                lemma_last_non_space_end(s@);
            }
        }
        end = end - 1;
    }
    proof {
        lemma_last_non_space_end(s@);
        if end > last_non_space_end(s@) {
            assert(is_space_char(s@[end - 1]));
            assert(!is_space_char(s@[first_non_space(s@)]));
            if end - 1 < first_non_space(s@) {
                lemma_first_non_space(s@);
            }
        }
        assert(end == last_non_space_end(s@));
    }
    let mut r: Vec<char> = Vec::new();
    let mut i: usize = start;
    while i < end
        invariant
            start <= i <= end <= s@.len(),
            r@ == s@.subrange(start as int, i as int),
        decreases end - i,
    {
        r.push(s[i]);
        proof {
            assert(r@ =~= s@.subrange(start as int, i + 1));
        }
        i = i + 1;
    }
    assert(r@ =~= spec_trim(s@));
    r
}

/// ASCII lower-casing of one character; anything outside `A`..`Z` is
/// unchanged.  Shell keywords and label names are matched this way.
pub open spec fn lower_char(c: char) -> char {
    if 'A' <= c && c <= 'Z' {
        ((c as u8) + 32) as char
    } else {
        c
    }
}

pub open spec fn spec_lower(s: Seq<char>) -> Seq<char> {
    s.map_values(|c: char| lower_char(c))
}

/// Executable ASCII lower-casing of one character.
pub fn to_lower(c: char) -> (r: char)
    ensures
        r == lower_char(c),
{
    if 'A' <= c && c <= 'Z' {
        ((c as u8) + 32) as char
    } else {
        c
    }
}

/// Executable ASCII lower-casing of a character vector.
pub fn lower_chars(s: &Vec<char>) -> (r: Vec<char>)
    ensures
        r@ == spec_lower(s@),
{
    let mut r: Vec<char> = Vec::new();
    let mut i: usize = 0;
    while i < s.len()
        invariant
            0 <= i <= s@.len(),
            r@ == spec_lower(s@.take(i as int)),
        decreases s@.len() - i,
    {
        r.push(to_lower(s[i]));
        proof {
            assert(r@ =~= spec_lower(s@.take(i + 1)));
        }
        i = i + 1;
    }
    proof {
        assert(s@.take(s@.len() as int) =~= s@);
    }
    r
}

/// Case-insensitive (ASCII) equality of two texts.
pub open spec fn eq_ignore_case(a: Seq<char>, b: Seq<char>) -> bool {
    spec_lower(a) == spec_lower(b)
}

/// `p` is a prefix of `s`, comparing ASCII case-insensitively.
pub open spec fn starts_with_ci(s: Seq<char>, p: Seq<char>) -> bool {
    p.len() <= s.len() && eq_ignore_case(s.take(p.len() as int), p)
}

/// `p` is a prefix of `s`, compared exactly.
pub open spec fn starts_with(s: Seq<char>, p: Seq<char>) -> bool {
    p.len() <= s.len() && s.take(p.len() as int) == p
}

/// Executable exact equality of two character vectors.
pub fn chars_eq(a: &Vec<char>, b: &Vec<char>) -> (r: bool)
    ensures
        r == (a@ == b@),
{
    if a.len() != b.len() {
        assert(a@ != b@);
        return false;
    }
    let mut i: usize = 0;
    while i < a.len()
        invariant
            0 <= i <= a@.len(),
            a@.len() == b@.len(),
            forall|j: int| 0 <= j < i ==> a@[j] == b@[j],
        decreases a@.len() - i,
    {
        if a[i] != b[i] {
            return false;
        }
        i = i + 1;
    }
    proof {
        assert(a@ =~= b@);
    }
    true
}

/// Executable case-insensitive equality.
pub fn chars_eq_ci(a: &Vec<char>, b: &Vec<char>) -> (r: bool)
    ensures
        r == eq_ignore_case(a@, b@),
{
    if a.len() != b.len() {
        assert(spec_lower(a@).len() != spec_lower(b@).len());
        return false;
    }
    let mut i: usize = 0;
    while i < a.len()
        invariant
            0 <= i <= a@.len(),
            a@.len() == b@.len(),
            forall|j: int| 0 <= j < i ==> lower_char(a@[j]) == lower_char(b@[j]),
        decreases a@.len() - i,
    {
        if to_lower(a[i]) != to_lower(b[i]) {
            assert(spec_lower(a@)[i as int] != spec_lower(b@)[i as int]);
            return false;
        }
        i = i + 1;
    }
    proof {
        assert(spec_lower(a@) =~= spec_lower(b@));
    }
    true
}

/// Executable case-insensitive prefix test.
pub fn chars_start_ci(s: &Vec<char>, p: &Vec<char>) -> (r: bool)
    ensures
        r == starts_with_ci(s@, p@),
{
    if p.len() > s.len() {
        return false;
    }
    let mut i: usize = 0;
    while i < p.len()
        invariant
            0 <= i <= p@.len() <= s@.len(),
            forall|j: int| 0 <= j < i ==> lower_char(s@[j]) == lower_char(p@[j]),
        decreases p@.len() - i,
    {
        if to_lower(s[i]) != to_lower(p[i]) {
            assert(spec_lower(s@.take(p@.len() as int))[i as int] != spec_lower(p@)[i as int]);
            return false;
        }
        i = i + 1;
    }
    proof {
        assert(spec_lower(s@.take(p@.len() as int)) =~= spec_lower(p@));
    }
    true
}

/// Executable exact prefix test.
pub fn chars_start(s: &Vec<char>, p: &Vec<char>) -> (r: bool)
    ensures
        r == starts_with(s@, p@),
{
    if p.len() > s.len() {
        return false;
    }
    let mut i: usize = 0;
    while i < p.len()
        invariant
            0 <= i <= p@.len() <= s@.len(),
            forall|j: int| 0 <= j < i ==> s@[j] == p@[j],
        decreases p@.len() - i,
    {
        if s[i] != p[i] {
            assert(s@.take(p@.len() as int)[i as int] != p@[i as int]);
            return false;
        }
        i = i + 1;
    }
    proof {
        assert(s@.take(p@.len() as int) =~= p@);
    }
    true
}

/// Equality of a string slice's text with a character vector's.
pub fn str_eq_chars(s: &str, b: &Vec<char>) -> (r: bool)
    ensures
        r == (s@ == b@),
{
    let a = chars_of(s);
    chars_eq(&a, b)
}

/// Copy of the characters in `[a, b)`.
pub fn sub_chars(s: &Vec<char>, a: usize, b: usize) -> (r: Vec<char>)
    requires
        a <= b <= s@.len(),
    ensures
        r@ == s@.subrange(a as int, b as int),
{
    let mut r: Vec<char> = Vec::new();
    let mut i: usize = a;
    while i < b
        invariant
            a <= i <= b <= s@.len(),
            r@ == s@.subrange(a as int, i as int),
        decreases b - i,
    {
        r.push(s[i]);
        proof {
            assert(r@ =~= s@.subrange(a as int, i + 1));
        }
        i = i + 1;
    }
    r
}

/// Concatenation of two character vectors.
pub fn concat_chars(a: &Vec<char>, b: &Vec<char>) -> (r: Vec<char>)
    ensures
        r@ == a@ + b@,
{
    let mut r = sub_chars(a, 0, a.len());
    proof {
        assert(a@.subrange(0, a@.len() as int) =~= a@);
    }
    let mut i: usize = 0;
    while i < b.len()
        invariant
            0 <= i <= b@.len(),
            r@ == a@ + b@.take(i as int),
        decreases b@.len() - i,
    {
        r.push(b[i]);
        proof {
            assert(r@ =~= a@ + b@.take(i + 1));
        }
        i = i + 1;
    }
    proof {
        assert(a@ + b@.take(b@.len() as int) =~= a@ + b@);
    }
    r
}

/// Index of the first whitespace character; the length if there is none.
pub open spec fn first_space_idx(s: Seq<char>) -> int
    decreases s.len(),
{
    if s.len() == 0 {
        0
    } else if is_space_char(s[0]) {
        0
    } else {
        1 + first_space_idx(s.drop_first())
    }
}

pub proof fn lemma_first_space_idx(s: Seq<char>)
    ensures
        0 <= first_space_idx(s) <= s.len(),
        forall|i: int| 0 <= i < first_space_idx(s) ==> !is_space_char(s[i]),
        first_space_idx(s) < s.len() ==> is_space_char(s[first_space_idx(s)]),
    decreases s.len(),
{
    if s.len() > 0 && !is_space_char(s[0]) {
        lemma_first_space_idx(s.drop_first());
        assert forall|i: int| 0 <= i < first_space_idx(s) implies !is_space_char(s[i]) by {
            if i > 0 {
                assert(s.drop_first()[i - 1] == s[i]);
            }
        }
        if first_space_idx(s) < s.len() {
            assert(s.drop_first()[first_space_idx(s) - 1] == s[first_space_idx(s)]);
        }
    }
}

/// The first whitespace-separated word of the text (the whole text if
/// it contains no whitespace; empty if it starts with whitespace).
pub open spec fn spec_first_token(s: Seq<char>) -> Seq<char> {
    s.take(first_space_idx(s))
}

/// Executable scan for the first whitespace index.
pub fn find_first_space(s: &Vec<char>) -> (r: usize)
    ensures
        r == first_space_idx(s@),
{
    proof {
        lemma_first_space_idx(s@);
    }
    let mut i: usize = 0;
    while i < s.len() && !is_space(s[i])
        invariant
            0 <= i <= s@.len(),
            forall|j: int| 0 <= j < i ==> !is_space_char(s@[j]),
            i <= first_space_idx(s@),
        decreases s@.len() - i,
    {
        proof {
            if i + 1 > first_space_idx(s@) {
                lemma_first_space_idx(s@);
            }
        }
        i = i + 1;
    }
    proof {
        lemma_first_space_idx(s@);
    }
    i
}

/// Executable first-token extraction.
pub fn first_token(s: &Vec<char>) -> (r: Vec<char>)
    ensures
        r@ == spec_first_token(s@),
{
    let k = find_first_space(s);
    proof {
        lemma_first_space_idx(s@);
    }
    sub_chars(s, 0, k)
}

pub open spec fn is_digit(c: char) -> bool {
    '0' <= c && c <= '9'
}

pub open spec fn digit_val(c: char) -> int {
    c as int - '0' as int
}

pub open spec fn all_digits(s: Seq<char>) -> bool {
    forall|i: int| 0 <= i < s.len() ==> is_digit(#[trigger] s[i])
}

/// The value of a sequence of decimal digits.
pub open spec fn digits_val(s: Seq<char>) -> int
    decreases s.len(),
{
    if s.len() == 0 {
        0
    } else {
        digits_val(s.drop_last()) * 10 + digit_val(s.last())
    }
}

pub proof fn lemma_digits_val_bounds(s: Seq<char>)
    requires
        all_digits(s),
    ensures
        digits_val(s) >= 0,
        s.len() > 0 ==> digits_val(s) >= digits_val(s.drop_last()),
    decreases s.len(),
{
    if s.len() > 0 {
        assert(forall|i: int|
            0 <= i < s.drop_last().len() ==> is_digit(#[trigger] s.drop_last()[i]));
        lemma_digits_val_bounds(s.drop_last());
    }
}

/// A digit sequence's value only grows as digits are appended.
pub proof fn lemma_digits_val_monotone(s: Seq<char>, i: int, j: int)
    requires
        all_digits(s),
        0 <= i <= j <= s.len(),
    ensures
        digits_val(s.take(i)) <= digits_val(s.take(j)),
    decreases j - i,
{
    if i < j {
        lemma_digits_val_monotone(s, i, j - 1);
        let t = s.take(j);
        assert(t.drop_last() =~= s.take(j - 1));
        assert(forall|k: int| 0 <= k < t.len() ==> is_digit(#[trigger] t[k]));
        lemma_digits_val_bounds(t);
    }
}

/// The numeric reading of the text, as `str::parse` of a signed integer
/// sees it: an optional single sign, then one or more digits.  `None`
/// when the shape is wrong; the value is unbounded here, so range
/// checks sit with the callers.
pub open spec fn spec_parse_int(s: Seq<char>) -> Option<int> {
    let (sign, ds) = if s.len() > 0 && (s[0] == '+' || s[0] == '-') {
        (if s[0] == '-' { -1int } else { 1int }, s.drop_first())
    } else {
        (1int, s)
    };
    if ds.len() > 0 && all_digits(ds) {
        Some(sign * digits_val(ds))
    } else {
        None
    }
}

/// What `str::parse::<i32>` accepts: the reading exists and fits.
pub open spec fn spec_parse_i32(s: Seq<char>) -> Option<int> {
    match spec_parse_int(s) {
        Some(v) => if i32::MIN <= v <= i32::MAX {
            Some(v)
        } else {
            None
        },
        None => None,
    }
}

/// Value of an unsigned digit run, bailing out when it exceeds `cap`.
fn digits_to_u64(s: &Vec<char>, from: usize, cap: u64) -> (r: Option<u64>)
    requires
        from <= s@.len(),
        cap <= 0xFFFF_FFFFu64,
    ensures
        ({
            let ds = s@.subrange(from as int, s@.len() as int);
            match r {
                Some(v) => ds.len() > 0 && all_digits(ds) && v == digits_val(ds) && v <= cap,
                None => ds.len() == 0 || !all_digits(ds) || digits_val(ds) > cap,
            }
        }),
{
    let ghost ds = s@.subrange(from as int, s@.len() as int);
    if from == s.len() {
        return None;
    }
    let mut acc: u64 = 0;
    let mut i: usize = from;
    while i < s.len()
        invariant
            from <= i <= s@.len(),
            from < s@.len(),
            ds == s@.subrange(from as int, s@.len() as int),
            all_digits(ds.take(i - from)),
            acc == digits_val(ds.take(i - from)),
            acc <= cap,
            cap <= 0xFFFF_FFFFu64,
        decreases s@.len() - i,
    {
        let c = s[i];
        if !('0' <= c && c <= '9') {
            assert(ds[i - from] == c);
            return None;
        }
        let d: u64 = (c as u32 as u64) - ('0' as u32 as u64);
        let next: u64 = acc * 10 + d;
        proof {
            assert(ds.take(i + 1 - from).drop_last() =~= ds.take(i - from));
            assert(ds.take(i + 1 - from).last() == c);
        }
        if next > cap {
            proof {
                if all_digits(ds) {
                    lemma_digits_val_monotone(ds, i + 1 - from, ds.len() as int);
                    assert(ds.take(ds.len() as int) =~= ds);
                }
            }
            return None;
        }
        acc = next;
        i = i + 1;
    }
    proof {
        assert(ds.take(s@.len() - from) =~= ds);
    }
    Some(acc)
}

/// Parse a signed decimal integer exactly as `str::parse::<i32>` does.
pub fn parse_i32_chars(s: &Vec<char>) -> (r: Option<i32>)
    ensures
        ({
            match r {
                Some(v) => spec_parse_i32(s@) == Some(v as int),
                None => spec_parse_i32(s@) is None,
            }
        }),
{
    let (neg, from): (bool, usize) = if s.len() > 0 && (s[0] == '+' || s[0] == '-') {
        (s[0] == '-', 1)
    } else {
        (false, 0)
    };
    let ghost ds = if from == 1 {
        s@.drop_first()
    } else {
        s@
    };
    proof {
        assert(ds =~= s@.subrange(from as int, s@.len() as int));
    }
    match digits_to_u64(s, from, 0x8000_0000u64) {
        Some(v) => {
            proof {
                if neg {
                    assert(spec_parse_int(s@) == Some(-1 * digits_val(ds)));
                } else {
                    assert(spec_parse_int(s@) == Some(1 * digits_val(ds)));
                }
            }
            if neg {
                let r: i64 = -(v as i64);
                assert(i32::MIN as i64 <= r <= i32::MAX as i64);
                Some(r as i32)
            } else {
                if v <= 0x7FFF_FFFFu64 {
                    Some(v as i32)
                } else {
                    None
                }
            }
        },
        None => {
            proof {
                if spec_parse_i32(s@) is Some {
                    let dv = digits_val(ds);
                    assert(dv > 0x8000_0000);
                    if neg {
                        assert(spec_parse_int(s@) == Some(-1 * dv));
                    } else {
                        assert(spec_parse_int(s@) == Some(1 * dv));
                    }
                }
            }
            None
        },
    }
}

/// Parse an unsigned decimal integer as `str::parse::<u32>` does.
pub fn parse_u32_chars(s: &Vec<char>) -> (r: Option<u32>)
    ensures
        ({
            let p = spec_parse_int(s@);
            match r {
                Some(v) => s@.len() > 0 && s@[0] != '-' && p == Some(v as int),
                None => s@.len() > 0 && s@[0] == '-' || p is None || (p matches Some(v) && v
                    > u32::MAX),
            }
        }),
{
    let from: usize = if s.len() > 0 && s[0] == '+' {
        1
    } else {
        0
    };
    if s.len() > 0 && s[0] == '-' {
        return None;
    }
    let ghost ds = if from == 1 {
        s@.drop_first()
    } else {
        s@
    };
    proof {
        assert(ds =~= s@.subrange(from as int, s@.len() as int));
    }
    match digits_to_u64(s, from, 0xFFFF_FFFFu64) {
        Some(v) => {
            if v <= 0xFFFF_FFFFu64 {
                proof {
                    if from == 0 {
                        assert(spec_parse_int(s@) == Some(1 * digits_val(ds)));
                    } else {
                        assert(spec_parse_int(s@) == Some(1 * digits_val(ds)));
                    }
                }
                Some(v as u32)
            } else {
                None
            }
        },
        None => {
            proof {
                if spec_parse_int(s@) is Some {
                    assert(spec_parse_int(s@) == Some(1 * digits_val(ds)));
                }
            }
            None
        },
    }
}


/// Leftmost, non-overlapping replacement of `pat` by `rep`, exactly as
/// `str::replace` performs it.
pub open spec fn spec_replace(s: Seq<char>, pat: Seq<char>, rep: Seq<char>) -> Seq<char>
    decreases s.len(),
    when pat.len() > 0
{
    if s.len() == 0 {
        Seq::empty()
    } else if starts_with(s, pat) {
        rep + spec_replace(s.skip(pat.len() as int), pat, rep)
    } else {
        seq![s[0]] + spec_replace(s.drop_first(), pat, rep)
    }
}

/// Does `pat` occur in `s` starting at position `i`?
fn match_at(s: &Vec<char>, i: usize, pat: &Vec<char>) -> (r: bool)
    requires
        i <= s@.len(),
    ensures
        r == starts_with(s@.skip(i as int), pat@),
{
    if s.len() - i < pat.len() {
        return false;
    }
    let mut j: usize = 0;
    let n = s.len();
    while j < pat.len()
        invariant
            0 <= j <= pat@.len(),
            i + pat@.len() <= s@.len(),
            n == s@.len(),
            forall|k: int| 0 <= k < j ==> s@[i + k] == pat@[k],
        decreases pat@.len() - j,
    {
        if s[i + j] != pat[j] {
            assert(s@.skip(i as int).take(pat@.len() as int)[j as int] != pat@[j as int]);
            return false;
        }
        j = j + 1;
    }
    proof {
        assert(s@.skip(i as int).take(pat@.len() as int) =~= pat@);
    }
    true
}

/// Executable replacement of every occurrence of `pat` by `rep`.
pub fn replace_chars(s: &Vec<char>, pat: &Vec<char>, rep: &Vec<char>) -> (r: Vec<char>)
    requires
        pat@.len() > 0,
    ensures
        r@ == spec_replace(s@, pat@, rep@),
{
    let mut out: Vec<char> = Vec::new();
    let mut i: usize = 0;
    proof {
        assert(s@.skip(0) =~= s@);
        assert(Seq::<char>::empty() + spec_replace(s@, pat@, rep@) =~= spec_replace(
            s@,
            pat@,
            rep@,
        ));
    }
    while i < s.len()
        invariant
            0 <= i <= s@.len(),
            pat@.len() > 0,
            spec_replace(s@, pat@, rep@) == out@ + spec_replace(
                s@.skip(i as int),
                pat@,
                rep@,
            ),
        decreases s@.len() - i,
    {
        let ghost pre = out@;
        if match_at(s, i, pat) {
            let mut k: usize = 0;
            while k < rep.len()
                invariant
                    0 <= k <= rep@.len(),
                    out@ == pre + rep@.take(k as int),
                decreases rep@.len() - k,
            {
                out.push(rep[k]);
                proof {
                    assert(out@ =~= pre + rep@.take(k + 1));
                }
                k = k + 1;
            }
            proof {
                assert(pre + rep@.take(rep@.len() as int) =~= pre + rep@);
                assert(s@.skip(i as int).skip(pat@.len() as int) =~= s@.skip(
                    i + pat@.len(),
                ));
                assert(out@ + spec_replace(s@.skip(i + pat@.len()), pat@, rep@) =~= pre
                    + (rep@ + spec_replace(s@.skip(i + pat@.len()), pat@, rep@)));
            }
            i = i + pat.len();
        } else {
            out.push(s[i]);
            proof {
                assert(s@.skip(i as int).len() > 0);
                assert(s@.skip(i as int)[0] == s@[i as int]);
                assert(s@.skip(i as int).drop_first() =~= s@.skip(i + 1));
                assert(out@ + spec_replace(s@.skip(i + 1), pat@, rep@) =~= pre + (seq![
                    s@[i as int],
                ] + spec_replace(s@.skip(i + 1), pat@, rep@)));
            }
            i = i + 1;
        }
    }
    proof {
        assert(s@.skip(s@.len() as int) =~= Seq::<char>::empty());
        assert(out@ + Seq::<char>::empty() =~= out@);
    }
    out
}

/// Index of the first character that is not a double quote.
pub open spec fn first_non_quote(s: Seq<char>) -> int
    decreases s.len(),
{
    if s.len() == 0 {
        0
    } else if s[0] == '"' {
        1 + first_non_quote(s.drop_first())
    } else {
        0
    }
}

/// Index one past the last character that is not a double quote.
pub open spec fn last_non_quote_end(s: Seq<char>) -> int
    decreases s.len(),
{
    if s.len() == 0 {
        0
    } else if s.last() == '"' {
        last_non_quote_end(s.drop_last())
    } else {
        s.len() as int
    }
}

/// The text with every leading and trailing double quote removed, as
/// `str::trim_matches` with a quote pattern behaves.
pub open spec fn spec_trim_quotes(s: Seq<char>) -> Seq<char> {
    if first_non_quote(s) == s.len() {
        Seq::empty()
    } else {
        s.subrange(first_non_quote(s), last_non_quote_end(s))
    }
}

proof fn lemma_first_non_quote(s: Seq<char>)
    ensures
        0 <= first_non_quote(s) <= s.len(),
        forall|i: int| 0 <= i < first_non_quote(s) ==> s[i] == '"',
        first_non_quote(s) < s.len() ==> s[first_non_quote(s)] != '"',
    decreases s.len(),
{
    if s.len() > 0 && s[0] == '"' {
        lemma_first_non_quote(s.drop_first());
        assert forall|i: int| 0 <= i < first_non_quote(s) implies s[i] == '"' by {
            if i > 0 {
                assert(s.drop_first()[i - 1] == s[i]);
            }
        }
        if first_non_quote(s) < s.len() {
            assert(s.drop_first()[first_non_quote(s) - 1] == s[first_non_quote(s)]);
        }
    }
}

proof fn lemma_last_non_quote_end(s: Seq<char>)
    ensures
        0 <= last_non_quote_end(s) <= s.len(),
        forall|i: int| last_non_quote_end(s) <= i < s.len() ==> s[i] == '"',
        last_non_quote_end(s) > 0 ==> s[last_non_quote_end(s) - 1] != '"',
    decreases s.len(),
{
    if s.len() > 0 && s.last() == '"' {
        lemma_last_non_quote_end(s.drop_last());
        assert forall|i: int| last_non_quote_end(s) <= i < s.len() implies s[i] == '"' by {
            if i < s.len() - 1 {
                assert(s.drop_last()[i] == s[i]);
            }
        }
        if last_non_quote_end(s) > 0 {
            assert(s.drop_last()[last_non_quote_end(s) - 1] == s[last_non_quote_end(s) - 1]);
        }
    }
}

/// Executable removal of surrounding double quotes.
pub fn trim_quotes(s: &Vec<char>) -> (r: Vec<char>)
    ensures
        r@ == spec_trim_quotes(s@),
{
    proof {
        lemma_first_non_quote(s@);
        lemma_last_non_quote_end(s@);
    }
    let mut start: usize = 0;
    while start < s.len() && s[start] == '"'
        invariant
            0 <= start <= s@.len(),
            forall|i: int| 0 <= i < start ==> s@[i] == '"',
            start <= first_non_quote(s@),
        decreases s@.len() - start,
    {
        proof {
            if start + 1 > first_non_quote(s@) {
                lemma_first_non_quote(s@);
            }
        }
        start = start + 1;
    }
    proof {
        lemma_first_non_quote(s@);
        assert(start == first_non_quote(s@));
    }
    if start == s.len() {
        let r: Vec<char> = Vec::new();
        assert(r@ =~= spec_trim_quotes(s@));
        return r;
    }
    let mut end: usize = s.len();
    while end > start && s[end - 1] == '"'
        invariant
            start <= end <= s@.len(),
            start == first_non_quote(s@),
            start < s@.len(),
            forall|i: int| end <= i < s@.len() ==> s@[i] == '"',
            end >= last_non_quote_end(s@),
        decreases end,
    {
        proof {
            if end - 1 < last_non_quote_end(s@) {
                lemma_last_non_quote_end(s@);
            }
        }
        end = end - 1;
    }
    proof {
        lemma_last_non_quote_end(s@);
        if end > last_non_quote_end(s@) {
            assert(s@[end - 1] == '"');
            assert(s@[first_non_quote(s@)] != '"');
            if end - 1 < first_non_quote(s@) {
                lemma_first_non_quote(s@);
            }
        }
        assert(end == last_non_quote_end(s@));
    }
    let r = sub_chars(s, start, end);
    assert(r@ =~= spec_trim_quotes(s@));
    r
}

/// The text with every maximal whitespace run replaced by one space and
/// the ends trimmed: the words of the text joined by single spaces.
/// `from` marks where the unprocessed suffix starts.
pub open spec fn spec_normalize_from(s: Seq<char>, from: int) -> Seq<char>
    decreases s.len() - from,
    when 0 <= from <= s.len()
    via spec_normalize_from_decreases
{
    let rest = s.subrange(from, s.len() as int);
    let j = from + first_non_space(rest);
    if j >= s.len() {
        Seq::empty()
    } else {
        let word_end = j + first_space_idx(s.subrange(j, s.len() as int));
        let word = s.subrange(j, word_end);
        let tail = spec_normalize_from(s, word_end);
        if tail.len() == 0 {
            word
        } else {
            word + seq![' '] + tail
        }
    }
}

#[via_fn]
proof fn spec_normalize_from_decreases(s: Seq<char>, from: int) {
    let rest = s.subrange(from, s.len() as int);
    lemma_first_non_space(rest);
    let j = from + first_non_space(rest);
    if j < s.len() {
        let tail = s.subrange(j, s.len() as int);
        lemma_first_space_idx(tail);
        assert(tail[0] == s[j]);
        assert(rest[j - from] == s[j]);
        assert(!is_space_char(tail[0]));
        assert(first_space_idx(tail) >= 1);
    }
}

pub open spec fn spec_normalize_ws(s: Seq<char>) -> Seq<char> {
    spec_normalize_from(s, 0)
}

/// Executable whitespace normalization from index `from` on.
fn normalize_from(s: &Vec<char>, from: usize) -> (r: Vec<char>)
    requires
        from <= s@.len(),
    ensures
        r@ == spec_normalize_from(s@, from as int),
    decreases s@.len() - from,
{
    let ghost rest0 = s@.subrange(from as int, s@.len() as int);
    proof {
        lemma_first_non_space(rest0);
    }
    let mut j: usize = from;
    while j < s.len() && is_space(s[j])
        invariant
            from <= j <= s@.len(),
            rest0 == s@.subrange(from as int, s@.len() as int),
            forall|i: int| 0 <= i < j - from ==> is_space_char(rest0[i]),
            j - from <= first_non_space(rest0),
        decreases s@.len() - j,
    {
        proof {
            if j + 1 - from > first_non_space(rest0) {
                lemma_first_non_space(rest0);
            }
        }
        j = j + 1;
    }
    proof {
        lemma_first_non_space(rest0);
        if j < s.len() {
            assert(rest0[j - from] == s@[j as int]);
        }
        assert(j - from == first_non_space(rest0));
    }
    if j == s.len() {
        let r: Vec<char> = Vec::new();
        return r;
    }
    let ghost tail0 = s@.subrange(j as int, s@.len() as int);
    proof {
        lemma_first_space_idx(tail0);
    }
    let mut k: usize = j;
    while k < s.len() && !is_space(s[k])
        invariant
            j <= k <= s@.len(),
            tail0 == s@.subrange(j as int, s@.len() as int),
            forall|i: int| 0 <= i < k - j ==> !is_space_char(tail0[i]),
            k - j <= first_space_idx(tail0),
        decreases s@.len() - k,
    {
        proof {
            if k + 1 - j > first_space_idx(tail0) {
                lemma_first_space_idx(tail0);
            }
        }
        k = k + 1;
    }
    proof {
        lemma_first_space_idx(tail0);
        if k < s.len() {
            assert(tail0[k - j] == s@[k as int]);
        }
        assert(k - j == first_space_idx(tail0));
    }
    let word = sub_chars(s, j, k);
    let tail = normalize_from(s, k);
    if tail.len() == 0 {
        proof {
            assert(word@ =~= spec_normalize_from(s@, from as int));
        }
        word
    } else {
        let mut out = word;
        out.push(' ');
        let r = concat_chars(&out, &tail);
        proof {
            assert(r@ =~= spec_normalize_from(s@, from as int));
        }
        r
    }
}

/// Executable whitespace normalization of a whole character vector.
pub fn normalize_chars(s: &Vec<char>) -> (r: Vec<char>)
    ensures
        r@ == spec_normalize_ws(s@),
{
    normalize_from(s, 0)
}

/// Append all characters of `src` to `dest`.
pub fn push_all(dest: &mut Vec<char>, src: &Vec<char>)
    ensures
        final(dest)@ == old(dest)@ + src@,
{
    let ghost pre = dest@;
    let mut i: usize = 0;
    while i < src.len()
        invariant
            0 <= i <= src@.len(),
            dest@ == pre + src@.take(i as int),
        decreases src@.len() - i,
    {
        dest.push(src[i]);
        proof {
            assert(dest@ =~= pre + src@.take(i + 1));
        }
        i = i + 1;
    }
    proof {
        assert(pre + src@.take(src@.len() as int) =~= pre + src@);
    }
}

/// The text with leading whitespace removed.
pub open spec fn spec_trim_start(s: Seq<char>) -> Seq<char> {
    s.subrange(first_non_space(s), s.len() as int)
}

/// Executable left trim.
pub fn trim_start_chars(s: &Vec<char>) -> (r: Vec<char>)
    ensures
        r@ == spec_trim_start(s@),
{
    proof {
        lemma_first_non_space(s@);
    }
    let mut start: usize = 0;
    while start < s.len() && is_space(s[start])
        invariant
            0 <= start <= s@.len(),
            forall|i: int| 0 <= i < start ==> is_space_char(s@[i]),
            start <= first_non_space(s@),
        decreases s@.len() - start,
    {
        proof {
            if start + 1 > first_non_space(s@) {
                lemma_first_non_space(s@);
            }
        }
        start = start + 1;
    }
    proof {
        lemma_first_non_space(s@);
        assert(start == first_non_space(s@));
    }
    sub_chars(s, start, s.len())
}

/// Index of the first occurrence of `c`; the length if there is none.
pub open spec fn first_occurrence(s: Seq<char>, c: char) -> int
    decreases s.len(),
{
    if s.len() == 0 {
        0
    } else if s[0] == c {
        0
    } else {
        1 + first_occurrence(s.drop_first(), c)
    }
}

pub proof fn lemma_first_occurrence(s: Seq<char>, c: char)
    ensures
        0 <= first_occurrence(s, c) <= s.len(),
        forall|i: int| 0 <= i < first_occurrence(s, c) ==> s[i] != c,
        first_occurrence(s, c) < s.len() ==> s[first_occurrence(s, c)] == c,
    decreases s.len(),
{
    if s.len() > 0 && s[0] != c {
        lemma_first_occurrence(s.drop_first(), c);
        assert forall|i: int| 0 <= i < first_occurrence(s, c) implies s[i] != c by {
            if i > 0 {
                assert(s.drop_first()[i - 1] == s[i]);
            }
        }
        if first_occurrence(s, c) < s.len() {
            assert(s.drop_first()[first_occurrence(s, c) - 1] == s[first_occurrence(s, c)]);
        }
    }
}

/// Executable scan for the first occurrence of a character.
pub fn find_char(s: &Vec<char>, c: char) -> (r: usize)
    ensures
        r == first_occurrence(s@, c),
{
    proof {
        lemma_first_occurrence(s@, c);
    }
    let mut i: usize = 0;
    while i < s.len() && s[i] != c
        invariant
            0 <= i <= s@.len(),
            forall|j: int| 0 <= j < i ==> s@[j] != c,
            i <= first_occurrence(s@, c),
        decreases s@.len() - i,
    {
        proof {
            if i + 1 > first_occurrence(s@, c) {
                lemma_first_occurrence(s@, c);
            }
        }
        i = i + 1;
    }
    proof {
        lemma_first_occurrence(s@, c);
    }
    i
}

/// An arithmetic operator character in a `SET` name: such names are
/// not tracked.
pub open spec fn is_op_char(c: char) -> bool {
    c == '+' || c == '-' || c == '*' || c == '/'
}

pub open spec fn has_op_char(s: Seq<char>) -> bool {
    exists|i: int| 0 <= i < s.len() && is_op_char(#[trigger] s[i])
}

/// Executable scan for arithmetic operator characters.
pub fn contains_op_char(s: &Vec<char>) -> (r: bool)
    ensures
        r == has_op_char(s@),
{
    let mut i: usize = 0;
    while i < s.len()
        invariant
            0 <= i <= s@.len(),
            forall|j: int| 0 <= j < i ==> !is_op_char(#[trigger] s@[j]),
        decreases s@.len() - i,
    {
        let c = s[i];
        if c == '+' || c == '-' || c == '*' || c == '/' {
            return true;
        }
        i = i + 1;
    }
    false
}

/// Index of the first character that differs from `c`.
pub open spec fn first_not(s: Seq<char>, c: char) -> int
    decreases s.len(),
{
    if s.len() == 0 {
        0
    } else if s[0] == c {
        1 + first_not(s.drop_first(), c)
    } else {
        0
    }
}

pub proof fn lemma_first_not(s: Seq<char>, c: char)
    ensures
        0 <= first_not(s, c) <= s.len(),
        forall|i: int| 0 <= i < first_not(s, c) ==> s[i] == c,
        first_not(s, c) < s.len() ==> s[first_not(s, c)] != c,
    decreases s.len(),
{
    if s.len() > 0 && s[0] == c {
        lemma_first_not(s.drop_first(), c);
        assert forall|i: int| 0 <= i < first_not(s, c) implies s[i] == c by {
            if i > 0 {
                assert(s.drop_first()[i - 1] == s[i]);
            }
        }
        if first_not(s, c) < s.len() {
            assert(s.drop_first()[first_not(s, c) - 1] == s[first_not(s, c)]);
        }
    }
}

/// The text with every leading `c` removed, as `str::trim_start_matches`
/// with a character pattern behaves.
pub open spec fn spec_strip_leading(s: Seq<char>, c: char) -> Seq<char> {
    s.subrange(first_not(s, c), s.len() as int)
}

/// Executable removal of leading copies of one character.
pub fn strip_leading(s: &Vec<char>, c: char) -> (r: Vec<char>)
    ensures
        r@ == spec_strip_leading(s@, c),
{
    proof {
        lemma_first_not(s@, c);
    }
    let mut start: usize = 0;
    while start < s.len() && s[start] == c
        invariant
            0 <= start <= s@.len(),
            forall|i: int| 0 <= i < start ==> s@[i] == c,
            start <= first_not(s@, c),
        decreases s@.len() - start,
    {
        proof {
            if start + 1 > first_not(s@, c) {
                lemma_first_not(s@, c);
            }
        }
        start = start + 1;
    }
    proof {
        lemma_first_not(s@, c);
        assert(start == first_not(s@, c));
    }
    sub_chars(s, start, s.len())
}

} // verus!