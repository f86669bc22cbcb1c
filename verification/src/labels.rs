//! The label index: a case-insensitive map from label name to the
//! physical line where the `:label` definition resides.  Later
//! definitions overwrite earlier ones; the reserved pseudo-label `eof`
//! is never entered, since the interpreter handles `:eof` itself.

use vstd::prelude::*;

verus! {

use crate::text::{
    chars_of,
    first_token,
    lower_chars,
    spec_first_token,
    spec_lower,
    spec_trim,
    str_eq_chars,
    sub_chars,
    trim_chars,
};

/// The lowercased name a label line defines, if any: the line's
/// trimmed text starts with `:` and has at least one more character;
/// the name is the first whitespace-separated token after the `:`.
/// The reserved name `eof` yields nothing.
pub open spec fn label_name_of(line: Seq<char>) -> Option<Seq<char>> {
    let t = spec_trim(line);
    if t.len() > 1 && t[0] == ':' {
        let name = spec_lower(spec_first_token(spec_trim(t.drop_first())));
        if name == seq!['e', 'o', 'f'] {
            None
        } else {
            Some(name)
        }
    } else {
        None
    }
}

/// The physical line of the last definition of `key` among the lines,
/// if any.
pub open spec fn spec_label_lookup(lines: Seq<Seq<char>>, key: Seq<char>) -> Option<int>
    decreases lines.len(),
{
    if lines.len() == 0 {
        None
    } else if label_name_of(lines.last()) == Some(key) {
        Some(lines.len() - 1)
    } else {
        spec_label_lookup(lines.drop_last(), key)
    }
}

/// A looked-up label line always lies within the script.
pub proof fn lemma_label_lookup_in_range(lines: Seq<Seq<char>>, key: Seq<char>)
    ensures
        spec_label_lookup(lines, key) matches Some(v) ==> 0 <= v < lines.len(),
    decreases lines.len(),
{
    if lines.len() > 0 {
        lemma_label_lookup_in_range(lines.drop_last(), key);
    }
}

/// Case-insensitive label map, stored as an association list with
/// pairwise-distinct keys.
pub struct LabelMap {
    pub entries: Vec<(String, usize)>,
}

/// First entry whose key matches, if any.
pub open spec fn find_entry(s: Seq<(String, usize)>, key: Seq<char>) -> Option<int>
    decreases s.len(),
{
    if s.len() == 0 {
        None
    } else if s[0].0@ == key {
        Some(s[0].1 as int)
    } else {
        find_entry(s.drop_first(), key)
    }
}

proof fn lemma_find_entry_head(s: Seq<(String, usize)>, key: Seq<char>, j: int)
    requires
        0 <= j < s.len(),
        s[j].0@ == key,
        forall|i: int| 0 <= i < j ==> (#[trigger] s[i]).0@ != key,
    ensures
        find_entry(s, key) == Some(s[j].1 as int),
    decreases j,
{
    if j > 0 {
        lemma_find_entry_head(s.drop_first(), key, j - 1);
        assert(s.drop_first()[j - 1] == s[j]);
        assert forall|i: int| 0 <= i < j - 1 implies (#[trigger] s.drop_first()[i]).0@
            != key by {
            assert(s.drop_first()[i] == s[i + 1]);
        }
    }
}

proof fn lemma_find_entry_absent(s: Seq<(String, usize)>, key: Seq<char>)
    requires
        forall|i: int| 0 <= i < s.len() ==> (#[trigger] s[i]).0@ != key,
    ensures
        find_entry(s, key) is None,
    decreases s.len(),
{
    if s.len() > 0 {
        assert forall|i: int| 0 <= i < s.len() - 1 implies (#[trigger] s.drop_first()[i]).0@
            != key by {
            assert(s.drop_first()[i] == s[i + 1]);
        }
        lemma_find_entry_absent(s.drop_first(), key);
    }
}

impl LabelMap {
    /// Keys are pairwise distinct.
    pub open spec fn wf(&self) -> bool {
        forall|i: int, j: int|
            0 <= i < j < self.entries@.len() ==> (#[trigger] self.entries@[i]).0@ != (
            #[trigger] self.entries@[j]).0@
    }

    /// The physical line recorded for a label name, if any.
    pub open spec fn spec_lookup(&self, key: Seq<char>) -> Option<int> {
        find_entry(self.entries@, key)
    }

    pub fn new() -> (r: LabelMap)
        ensures
            r.wf(),
            forall|key: Seq<char>| #[trigger] r.spec_lookup(key) is None,
    {
        let r = LabelMap { entries: Vec::new() };
        proof {
            assert forall|key: Seq<char>| #[trigger] r.spec_lookup(key) is None by {
                lemma_find_entry_absent(r.entries@, key);
            }
        }
        r
    }

    pub fn len(&self) -> (r: usize)
        ensures
            r == self.entries@.len(),
    {
        self.entries.len()
    }

    /// Look a lowercased name up.
    pub fn get(&self, key: &Vec<char>) -> (r: Option<usize>)
        ensures
            ({
                match r {
                    Some(v) => self.spec_lookup(key@) == Some(v as int),
                    None => self.spec_lookup(key@) is None,
                }
            }),
    {
        let mut i: usize = 0;
        while i < self.entries.len()
            invariant
                0 <= i <= self.entries@.len(),
                forall|j: int| 0 <= j < i ==> (#[trigger] self.entries@[j]).0@ != key@,
            decreases self.entries@.len() - i,
        {
            if str_eq_chars(&self.entries[i].0, key) {
                proof {
                    lemma_find_entry_head(self.entries@, key@, i as int);
                }
                return Some(self.entries[i].1);
            }
            i = i + 1;
        }
        proof {
            lemma_find_entry_absent(self.entries@, key@);
        }
        None
    }

    /// Whether a name (given in any case) is defined.
    pub fn contains_key(&self, key: &str) -> (r: bool)
        ensures
            r == (self.spec_lookup(spec_lower(key@)) is Some),
    {
        let cs = chars_of(key);
        let low = lower_chars(&cs);
        match self.get(&low) {
            Some(_) => true,
            None => false,
        }
    }

    /// Record a definition; a later definition overwrites an earlier
    /// one.
    fn put(&mut self, key: Vec<char>, line: usize)
        requires
            old(self).wf(),
        ensures
            final(self).wf(),
            final(self).spec_lookup(key@) == Some(line as int),
            forall|k: Seq<char>|
                k != key@ ==> #[trigger] final(self).spec_lookup(k) == old(self).spec_lookup(k),
    {
        let mut i: usize = 0;
        while i < self.entries.len()
            invariant
                0 <= i <= self.entries@.len(),
                *self == *old(self),
                old(self).wf(),
                forall|j: int| 0 <= j < i ==> (#[trigger] self.entries@[j]).0@ != key@,
            decreases self.entries@.len() - i,
        {
            if str_eq_chars(&self.entries[i].0, &key) {
                let name = self.entries[i].0.clone();
                let ghost pre = self.entries@;
                self.entries.set(i, (name, line));
                proof {
                    assert forall|ii: int, jj: int|
                        0 <= ii < jj < self.entries@.len() implies (
                    #[trigger] self.entries@[ii]).0@ != (#[trigger] self.entries@[jj]).0@ by {
                        assert(pre[ii].0@ == self.entries@[ii].0@);
                        assert(pre[jj].0@ == self.entries@[jj].0@);
                    }
                    lemma_find_entry_head(self.entries@, key@, i as int);
                    assert forall|k: Seq<char>| k != key@ implies #[trigger] find_entry(
                        self.entries@,
                        k,
                    ) == find_entry(pre, k) by {
                        lemma_find_entry_frame(pre, self.entries@, k);
                    }
                }
                return ;
            }
            i = i + 1;
        }
        let ghost pre = self.entries@;
        let name = crate::text::string_from_chars(&key);
        self.entries.push((name, line));
        proof {
            assert forall|ii: int, jj: int|
                0 <= ii < jj < self.entries@.len() implies (#[trigger] self.entries@[ii]).0@ != (
            #[trigger] self.entries@[jj]).0@ by {
                if jj < pre.len() {
                    assert(pre[ii] == self.entries@[ii]);
                    assert(pre[jj] == self.entries@[jj]);
                } else {
                    assert(self.entries@[jj].0@ == key@);
                    assert(pre[ii] == self.entries@[ii]);
                }
            }
            lemma_find_entry_head(self.entries@, key@, pre.len() as int);
            assert forall|k: Seq<char>| k != key@ implies #[trigger] find_entry(
                self.entries@,
                k,
            ) == find_entry(pre, k) by {
                lemma_find_entry_frame_push(pre, key@, line, k);
            }
        }
    }
}

/// Two lists of equal length whose entries differ only in the value at
/// positions keyed `!= k` agree on `find_entry` at `k`.
proof fn lemma_find_entry_frame(pre: Seq<(String, usize)>, post: Seq<(String, usize)>, k: Seq<char>)
    requires
        pre.len() == post.len(),
        forall|i: int|
            0 <= i < pre.len() ==> (#[trigger] pre[i]).0@ == (#[trigger] post[i]).0@,
        forall|i: int|
            0 <= i < pre.len() && pre[i].0@ == k ==> (#[trigger] pre[i]).1 == (
            #[trigger] post[i]).1,
    ensures
        find_entry(post, k) == find_entry(pre, k),
    decreases pre.len(),
{
    if pre.len() > 0 {
        assert(pre[0].0@ == post[0].0@);
        assert forall|i: int|
            0 <= i < pre.drop_first().len() implies (#[trigger] pre.drop_first()[i]).0@ == (
        #[trigger] post.drop_first()[i]).0@ by {
            assert(pre.drop_first()[i] == pre[i + 1]);
            assert(post.drop_first()[i] == post[i + 1]);
        }
        assert forall|i: int|
            0 <= i < pre.drop_first().len() && pre.drop_first()[i].0@ == k implies (
        #[trigger] pre.drop_first()[i]).1 == (#[trigger] post.drop_first()[i]).1 by {
            assert(pre.drop_first()[i] == pre[i + 1]);
            assert(post.drop_first()[i] == post[i + 1]);
        }
        lemma_find_entry_frame(pre.drop_first(), post.drop_first(), k);
    }
}

/// Appending an entry with a different key leaves a lookup unchanged.
proof fn lemma_find_entry_frame_push(
    pre: Seq<(String, usize)>,
    key: Seq<char>,
    line: usize,
    k: Seq<char>,
)
    requires
        k != key,
    ensures
        forall|e: (String, usize)|
            e.0@ == key ==> find_entry(pre.push(e), k) == find_entry(pre, k),
    decreases pre.len(),
{
    assert forall|e: (String, usize)| e.0@ == key implies find_entry(pre.push(e), k)
        == find_entry(pre, k) by {
        lemma_find_entry_push_one(pre, e, k);
    }
}

proof fn lemma_find_entry_push_one(pre: Seq<(String, usize)>, e: (String, usize), k: Seq<char>)
    requires
        e.0@ != k,
    ensures
        find_entry(pre.push(e), k) == find_entry(pre, k),
    decreases pre.len(),
{
    if pre.len() == 0 {
        assert(pre.push(e)[0] == e);
        assert(pre.push(e).drop_first() =~= Seq::<(String, usize)>::empty());
        assert(find_entry(pre.push(e).drop_first(), k) is None);
        assert(find_entry(pre.push(e), k) is None);
        assert(find_entry(pre, k) is None);
    } else {
        assert(pre.push(e)[0] == pre[0]);
        assert(pre.push(e).drop_first() =~= pre.drop_first().push(e));
        lemma_find_entry_push_one(pre.drop_first(), e, k);
        assert(find_entry(pre.push(e).drop_first(), k) == find_entry(pre.drop_first(), k));
        if pre[0].0@ == k {
            assert(find_entry(pre.push(e), k) == Some(pre[0].1 as int));
            assert(find_entry(pre, k) == Some(pre[0].1 as int));
        } else {
            assert(find_entry(pre.push(e), k) == find_entry(pre.push(e).drop_first(), k));
            assert(find_entry(pre, k) == find_entry(pre.drop_first(), k));
        }
    }
}

/// Scan the physical lines for label definitions (case-insensitive;
/// last definition wins; the pseudo-label `eof` is skipped).
pub fn build_label_map(lines: &Vec<String>) -> (r: LabelMap)
    ensures
        r.wf(),
        forall|key: Seq<char>| #[trigger] r.spec_lookup(key) == spec_label_lookup(
            crate::preprocess::views_of(lines@),
            key,
        ),
{
    let ghost vs = crate::preprocess::views_of(lines@);
    let mut map = LabelMap::new();
    let mut i: usize = 0;
    proof {
        assert(vs.take(0) =~= Seq::<Seq<char>>::empty());
    }
    while i < lines.len()
        invariant
            0 <= i <= lines@.len(),
            vs == crate::preprocess::views_of(lines@),
            map.wf(),
            forall|key: Seq<char>| #[trigger] map.spec_lookup(key) == spec_label_lookup(
                vs.take(i as int),
                key,
            ),
        decreases lines@.len() - i,
    {
        let cs = chars_of(&lines[i]);
        proof {
            assert(vs[i as int] == lines@[i as int]@);
        }
        let t = trim_chars(&cs);
        let ghost pre_lookup = map;
        if t.len() > 1 && t[0] == ':' {
            let tail = sub_chars(&t, 1, t.len());
            proof {
                assert(tail@ =~= t@.drop_first());
            }
            let tail_trim = trim_chars(&tail);
            let token = first_token(&tail_trim);
            let name = lower_chars(&token);
            let is_eof = name.len() == 3 && name[0] == 'e' && name[1] == 'o' && name[2] == 'f';
            proof {
                if is_eof {
                    assert(name@ =~= seq!['e', 'o', 'f']);
                } else {
                    assert(name@ != seq!['e', 'o', 'f']) by {
                        if name@ == seq!['e', 'o', 'f'] {
                            assert(name@.len() == 3);
                            assert(name@[0] == 'e' && name@[1] == 'o' && name@[2] == 'f');
                        }
                    }
                }
            }
            if !is_eof {
                map.put(name, i);
            }
        }
        proof {
            assert(vs.take(i + 1).drop_last() =~= vs.take(i as int));
            assert(vs.take(i + 1).last() == vs[i as int]);
            assert forall|key: Seq<char>| #[trigger] map.spec_lookup(key) == spec_label_lookup(
                vs.take(i + 1),
                key,
            ) by {
                if label_name_of(vs[i as int]) == Some(key) {
                    assert(map.spec_lookup(key) == Some(i as int));
                } else {
                    assert(map.spec_lookup(key) == pre_lookup.spec_lookup(key));
                }
            }
        }
        i = i + 1;
    }
    proof {
        assert(vs.take(vs.len() as int) =~= vs);
    }
    map
}

} // verus!
