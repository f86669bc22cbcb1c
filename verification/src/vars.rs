//! Variable maps: shell variable names matched case-insensitively
//! (ASCII), stored with the spelling of their first definition.

use vstd::prelude::*;

verus! {

use crate::text::{
    chars_of,
    lower_chars,
    spec_lower,
};

/// The (name, value) views of the entries.
pub open spec fn entry_views(s: Seq<(String, String)>) -> Seq<(Seq<char>, Seq<char>)> {
    s.map_values(|e: (String, String)| (e.0@, e.1@))
}

/// Value of the first entry whose lowercased name is `key`, if any.
pub open spec fn find_var(s: Seq<(Seq<char>, Seq<char>)>, key: Seq<char>) -> Option<Seq<char>>
    decreases s.len(),
{
    if s.len() == 0 {
        None
    } else if spec_lower(s[0].0) == key {
        Some(s[0].1)
    } else {
        find_var(s.drop_first(), key)
    }
}

/// A case-insensitive map from variable names to values.
pub struct VarMap {
    pub entries: Vec<(String, String)>,
}

proof fn lemma_find_var_head(s: Seq<(Seq<char>, Seq<char>)>, key: Seq<char>, j: int)
    requires
        0 <= j < s.len(),
        spec_lower(s[j].0) == key,
        forall|i: int| 0 <= i < j ==> spec_lower((#[trigger] s[i]).0) != key,
    ensures
        find_var(s, key) == Some(s[j].1),
    decreases j,
{
    if j > 0 {
        assert forall|i: int| 0 <= i < j - 1 implies spec_lower(
            (#[trigger] s.drop_first()[i]).0,
        ) != key by {
            assert(s.drop_first()[i] == s[i + 1]);
        }
        assert(s.drop_first()[j - 1] == s[j]);
        lemma_find_var_head(s.drop_first(), key, j - 1);
    }
}

proof fn lemma_find_var_absent(s: Seq<(Seq<char>, Seq<char>)>, key: Seq<char>)
    requires
        forall|i: int| 0 <= i < s.len() ==> spec_lower((#[trigger] s[i]).0) != key,
    ensures
        find_var(s, key) is None,
    decreases s.len(),
{
    if s.len() > 0 {
        assert forall|i: int| 0 <= i < s.len() - 1 implies spec_lower(
            (#[trigger] s.drop_first()[i]).0,
        ) != key by {
            assert(s.drop_first()[i] == s[i + 1]);
        }
        lemma_find_var_absent(s.drop_first(), key);
    }
}

/// Looking a key up past an appended entry: the old entries win, the
/// new entry answers only keys they do not.
pub proof fn lemma_find_var_push(
    s: Seq<(Seq<char>, Seq<char>)>,
    e: (Seq<char>, Seq<char>),
    key: Seq<char>,
)
    ensures
        find_var(s.push(e), key) == if find_var(s, key) is Some {
            find_var(s, key)
        } else if spec_lower(e.0) == key {
            Some(e.1)
        } else {
            None
        },
    decreases s.len(),
{
    if s.len() == 0 {
        assert(s.push(e)[0] == e);
        assert(s.push(e).drop_first() =~= Seq::<(Seq<char>, Seq<char>)>::empty());
    } else {
        assert(s.push(e)[0] == s[0]);
        assert(s.push(e).drop_first() =~= s.drop_first().push(e));
        lemma_find_var_push(s.drop_first(), e, key);
    }
}

/// Updating the value at position `j` (same name) changes only that
/// name's answer, provided no earlier entry has the name.
proof fn lemma_find_var_update(
    pre: Seq<(Seq<char>, Seq<char>)>,
    post: Seq<(Seq<char>, Seq<char>)>,
    j: int,
    key: Seq<char>,
)
    requires
        pre.len() == post.len(),
        0 <= j < pre.len(),
        forall|i: int| 0 <= i < pre.len() && i != j ==> #[trigger] post[i] == pre[i],
        post[j].0 == pre[j].0,
        forall|i: int| 0 <= i < j ==> spec_lower((#[trigger] pre[i]).0) != spec_lower(pre[j].0),
    ensures
        find_var(post, spec_lower(pre[j].0)) == Some(post[j].1),
        forall|k: Seq<char>|
            k != spec_lower(pre[j].0) ==> #[trigger] find_var(post, k) == find_var(pre, k),
{
    lemma_find_var_head(post, spec_lower(pre[j].0), j);
    assert forall|k: Seq<char>| k != spec_lower(pre[j].0) implies #[trigger] find_var(post, k)
        == find_var(pre, k) by {
        lemma_find_var_frame(pre, post, j, k);
    }
}

proof fn lemma_find_var_frame(
    pre: Seq<(Seq<char>, Seq<char>)>,
    post: Seq<(Seq<char>, Seq<char>)>,
    j: int,
    k: Seq<char>,
)
    requires
        pre.len() == post.len(),
        0 <= j < pre.len(),
        forall|i: int| 0 <= i < pre.len() && i != j ==> #[trigger] post[i] == pre[i],
        post[j].0 == pre[j].0,
        k != spec_lower(pre[j].0),
    ensures
        find_var(post, k) == find_var(pre, k),
    decreases pre.len(),
{
    if pre.len() > 0 {
        assert(post[0].0 == pre[0].0);
        if spec_lower(pre[0].0) == k {
            assert(post[0] == pre[0]);
        } else {
            if j == 0 {
                assert forall|i: int|
                    0 <= i < pre.drop_first().len() implies #[trigger] post.drop_first()[i]
                    == pre.drop_first()[i] by {
                    assert(post.drop_first()[i] == post[i + 1]);
                    assert(pre.drop_first()[i] == pre[i + 1]);
                }
                assert(post.drop_first() =~= pre.drop_first());
            } else {
                assert forall|i: int|
                    0 <= i < pre.drop_first().len() && i != j - 1 implies #[trigger] post
                    .drop_first()[i] == pre.drop_first()[i] by {
                    assert(post.drop_first()[i] == post[i + 1]);
                    assert(pre.drop_first()[i] == pre[i + 1]);
                }
                assert(post.drop_first()[j - 1] == post[j]);
                assert(pre.drop_first()[j - 1] == pre[j]);
                lemma_find_var_frame(pre.drop_first(), post.drop_first(), j - 1, k);
            }
        }
    }
}

impl VarMap {
    /// The entry views the contracts speak of.
    pub open spec fn view_entries(&self) -> Seq<(Seq<char>, Seq<char>)> {
        entry_views(self.entries@)
    }

    /// The value stored under a (lowercased) name, if any.
    pub open spec fn spec_get(&self, key: Seq<char>) -> Option<Seq<char>> {
        find_var(self.view_entries(), key)
    }

    /// Lowercased names are pairwise distinct.
    pub open spec fn wf(&self) -> bool {
        forall|i: int, j: int|
            0 <= i < j < self.view_entries().len() ==> spec_lower(
                (#[trigger] self.view_entries()[i]).0,
            ) != spec_lower((#[trigger] self.view_entries()[j]).0)
    }

    pub fn new() -> (r: VarMap)
        ensures
            r.wf(),
            r.view_entries().len() == 0,
            forall|key: Seq<char>| #[trigger] r.spec_get(key) is None,
    {
        let r = VarMap { entries: Vec::new() };
        proof {
            assert(r.view_entries() =~= Seq::<(Seq<char>, Seq<char>)>::empty());
            assert forall|key: Seq<char>| #[trigger] r.spec_get(key) is None by {
                lemma_find_var_absent(r.view_entries(), key);
            }
        }
        r
    }

    pub fn len(&self) -> (r: usize)
        ensures
            r == self.view_entries().len(),
    {
        self.entries.len()
    }

    pub fn is_empty(&self) -> (r: bool)
        ensures
            r == (self.view_entries().len() == 0),
    {
        self.entries.len() == 0
    }

    /// Look a name up, matching ASCII case-insensitively.
    pub fn get(&self, name: &str) -> (r: Option<&String>)
        ensures
            ({
                match r {
                    Some(v) => self.spec_get(spec_lower(name@)) == Some(v@),
                    None => self.spec_get(spec_lower(name@)) is None,
                }
            }),
    {
        let cs = chars_of(name);
        let low = lower_chars(&cs);
        let mut i: usize = 0;
        while i < self.entries.len()
            invariant
                0 <= i <= self.entries@.len(),
                low@ == spec_lower(name@),
                forall|j: int|
                    0 <= j < i ==> spec_lower((#[trigger] self.view_entries()[j]).0) != low@,
            decreases self.entries@.len() - i,
        {
            let ecs = chars_of(&self.entries[i].0);
            let elow = lower_chars(&ecs);
            if crate::text::chars_eq(&elow, &low) {
                proof {
                    assert(self.view_entries()[i as int].0 == self.entries@[i as int].0@);
                    lemma_find_var_head(self.view_entries(), low@, i as int);
                }
                return Some(&self.entries[i].1);
            }
            proof {
                assert(self.view_entries()[i as int].0 == self.entries@[i as int].0@);
            }
            i = i + 1;
        }
        proof {
            lemma_find_var_absent(self.view_entries(), low@);
        }
        None
    }

    /// Whether a name is present.
    pub fn contains_key(&self, name: &str) -> (r: bool)
        ensures
            r == (self.spec_get(spec_lower(name@)) is Some),
    {
        match self.get(name) {
            Some(_) => true,
            None => false,
        }
    }

    /// Bind a name: an existing entry (matched case-insensitively)
    /// keeps its spelling and gets the new value; otherwise the pair
    /// is appended.
    pub fn insert(&mut self, name: String, value: String)
        requires
            old(self).wf(),
        ensures
            final(self).wf(),
            final(self).spec_get(spec_lower(name@)) == Some(value@),
            forall|k: Seq<char>|
                k != spec_lower(name@) ==> #[trigger] final(self).spec_get(k) == old(
                    self,
                ).spec_get(k),
    {
        let cs = chars_of(&name);
        let low = lower_chars(&cs);
        let mut i: usize = 0;
        while i < self.entries.len()
            invariant
                0 <= i <= self.entries@.len(),
                *self == *old(self),
                old(self).wf(),
                low@ == spec_lower(name@),
                forall|j: int|
                    0 <= j < i ==> spec_lower((#[trigger] self.view_entries()[j]).0) != low@,
            decreases self.entries@.len() - i,
        {
            let ecs = chars_of(&self.entries[i].0);
            let elow = lower_chars(&ecs);
            if crate::text::chars_eq(&elow, &low) {
                proof {
                    assert(self.view_entries()[i as int].0 == self.entries@[i as int].0@);
                }
                let spelled = self.entries[i].0.clone();
                let ghost pre = self.view_entries();
                self.entries.set(i, (spelled, value));
                proof {
                    let post = self.view_entries();
                    assert forall|ii: int|
                        0 <= ii < pre.len() && ii != i as int implies #[trigger] post[ii]
                        == pre[ii] by {
                        assert(self.entries@[ii] == old(self).entries@[ii]);
                    }
                    assert(post[i as int].0 == pre[i as int].0);
                    lemma_find_var_update(pre, post, i as int, low@);
                    assert forall|ii: int, jj: int|
                        0 <= ii < jj < post.len() implies spec_lower((#[trigger] post[ii]).0)
                        != spec_lower((#[trigger] post[jj]).0) by {
                        assert(post[ii].0 == pre[ii].0);
                        assert(post[jj].0 == pre[jj].0);
                    }
                }
                return ;
            }
            proof {
                assert(self.view_entries()[i as int].0 == self.entries@[i as int].0@);
            }
            i = i + 1;
        }
        let ghost pre = self.view_entries();
        self.entries.push((name, value));
        proof {
            let post = self.view_entries();
            assert(post =~= pre.push((post[pre.len() as int].0, post[pre.len() as int].1)));
            lemma_find_var_absent(pre, low@);
            assert forall|k: Seq<char>| true implies #[trigger] find_var(post, k) == (
            if find_var(pre, k) is Some {
                find_var(pre, k)
            } else if spec_lower(post[pre.len() as int].0) == k {
                Some(post[pre.len() as int].1)
            } else {
                None
            }) by {
                lemma_find_var_push(pre, post[pre.len() as int], k);
            }
            assert(spec_lower(post[pre.len() as int].0) == low@);
            assert forall|ii: int, jj: int|
                0 <= ii < jj < post.len() implies spec_lower((#[trigger] post[ii]).0)
                != spec_lower((#[trigger] post[jj]).0) by {
                if jj < pre.len() {
                    assert(post[ii] == pre[ii]);
                    assert(post[jj] == pre[jj]);
                } else {
                    assert(post[ii] == pre[ii]);
                }
            }
        }
    }

    /// Remove every binding.
    pub fn clear(&mut self)
        ensures
            final(self).wf(),
            final(self).view_entries().len() == 0,
            forall|key: Seq<char>| #[trigger] final(self).spec_get(key) is None,
    {
        self.entries.clear();
        proof {
            assert(self.view_entries() =~= Seq::<(Seq<char>, Seq<char>)>::empty());
            assert forall|key: Seq<char>| #[trigger] self.spec_get(key) is None by {
                lemma_find_var_absent(self.view_entries(), key);
            }
        }
    }

    /// An independent copy with the same entries.
    pub fn duplicate(&self) -> (r: VarMap)
        ensures
            r.view_entries() == self.view_entries(),
            r.wf() == self.wf(),
    {
        let mut out: Vec<(String, String)> = Vec::new();
        let mut i: usize = 0;
        while i < self.entries.len()
            invariant
                0 <= i <= self.entries@.len(),
                out@.len() == i,
                entry_views(out@) == entry_views(self.entries@).take(i as int),
            decreases self.entries@.len() - i,
        {
            let k = self.entries[i].0.clone();
            let v = self.entries[i].1.clone();
            let ghost kv = (k@, v@);
            out.push((k, v));
            proof {
                assert(kv == (self.entries@[i as int].0@, self.entries@[i as int].1@));
                assert(out@.len() == i + 1);
                assert(entry_views(out@).len() == out@.len());
                assert(entry_views(out@).len() == i + 1);
                assert forall|j: int| 0 <= j < i + 1 implies #[trigger] entry_views(out@)[j]
                    == entry_views(self.entries@).take(i + 1)[j] by {
                    assert(entry_views(out@)[j] == (out@[j].0@, out@[j].1@));
                    if j < i {
                        assert(entry_views(self.entries@).take(i as int)[j] == entry_views(
                            self.entries@,
                        )[j]);
                    }
                }
                assert(entry_views(out@) =~= entry_views(self.entries@).take(i + 1));
            }
            i = i + 1;
        }
        let r = VarMap { entries: out };
        proof {
            assert(entry_views(self.entries@).take(self.entries@.len() as int) =~= entry_views(
                self.entries@,
            ));
            assert(r.view_entries() == self.view_entries());
        }
        r
    }

    /// This map overlaid by `top`: `top`'s bindings shadow this map's
    /// bindings of the same name.
    pub fn overlay(&self, top: &VarMap) -> (r: VarMap)
        requires
            self.wf(),
            top.wf(),
        ensures
            r.wf(),
            forall|key: Seq<char>|
                #[trigger] r.spec_get(key) == if top.spec_get(key) is Some {
                    top.spec_get(key)
                } else {
                    self.spec_get(key)
                },
    {
        let mut r = self.duplicate();
        let mut i: usize = 0;
        while i < top.entries.len()
            invariant
                0 <= i <= top.entries@.len(),
                top.wf(),
                r.wf(),
                forall|key: Seq<char>|
                    #[trigger] r.spec_get(key) == if find_var(
                        top.view_entries().take(i as int),
                        key,
                    ) is Some {
                        find_var(top.view_entries().take(i as int), key)
                    } else {
                        self.spec_get(key)
                    },
            decreases top.entries@.len() - i,
        {
            let name = top.entries[i].0.clone();
            let value = top.entries[i].1.clone();
            let ghost rpre = r;
            r.insert(name, value);
            proof {
                let tv = top.view_entries();
                assert(tv[i as int].0 == top.entries@[i as int].0@);
                assert(tv[i as int].1 == top.entries@[i as int].1@);
                assert(tv.take(i + 1) =~= tv.take(i as int).push(tv[i as int]));
                assert forall|key: Seq<char>|
                    #[trigger] r.spec_get(key) == if find_var(tv.take(i + 1), key) is Some {
                        find_var(tv.take(i + 1), key)
                    } else {
                        self.spec_get(key)
                    } by {
                    lemma_find_var_push(tv.take(i as int), tv[i as int], key);
                    if key == spec_lower(tv[i as int].0) {
                        if find_var(tv.take(i as int), key) is Some {
                            let j = choose|j: int|
                                0 <= j < i && spec_lower(
                                    #[trigger] tv.take(i as int)[j].0,
                                ) == key;
                            assert(find_var(tv.take(i as int), key) is None) by {
                                lemma_find_var_unique_prefix(tv, i as int, key);
                            }
                        }
                        assert(r.spec_get(key) == Some(tv[i as int].1));
                    } else {
                        assert(r.spec_get(key) == rpre.spec_get(key));
                    }
                }
            }
            i = i + 1;
        }
        proof {
            assert(top.view_entries().take(top.entries@.len() as int) =~= top.view_entries());
        }
        r
    }
}

/// Under distinct lowercased names, a name at position `i` is absent
/// from the prefix before `i`.
proof fn lemma_find_var_unique_prefix(tv: Seq<(Seq<char>, Seq<char>)>, i: int, key: Seq<char>)
    requires
        0 <= i < tv.len(),
        key == spec_lower(tv[i].0),
        forall|a: int, b: int|
            0 <= a < b < tv.len() ==> spec_lower((#[trigger] tv[a]).0) != spec_lower(
                (#[trigger] tv[b]).0,
            ),
    ensures
        find_var(tv.take(i), key) is None,
{
    assert forall|j: int| 0 <= j < i implies spec_lower((#[trigger] tv.take(i)[j]).0)
        != key by {
        assert(tv.take(i)[j] == tv[j]);
    }
    lemma_find_var_absent(tv.take(i), key);
}

} // verus!
