use vstd::prelude::*;

use crate::text::{compare_text, lemma_lt_irreflexive, lemma_lt_transitive, same_text, text_lt};
use crate::value::Value;

verus! {

/// A list of keyed entries, seen as the map that results from inserting them in
/// order: a later entry overwrites an earlier one with the same key.
pub open spec fn fold_entries(s: Seq<(Seq<char>, Value)>) -> Map<Seq<char>, Value>
    decreases s.len(),
{
    if s.len() == 0 {
        Map::empty()
    } else {
        fold_entries(s.drop_last()).insert(s.last().0, s.last().1)
    }
}

/// The text keys of a list of executable entries.
pub open spec fn entries_view(s: Seq<(String, Value)>) -> Seq<(Seq<char>, Value)> {
    s.map_values(|e: (String, Value)| (e.0@, e.1))
}

/// Replacing the value of an entry whose key occurs nowhere else is an insertion
/// into the folded map.
proof fn lemma_fold_update(s: Seq<(Seq<char>, Value)>, j: int, v: Value)
    requires
        0 <= j < s.len(),
        forall|a: int| 0 <= a < s.len() && a != j ==> s[a].0 != s[j].0,
    ensures
        fold_entries(s.update(j, (s[j].0, v))) == fold_entries(s).insert(s[j].0, v),
    decreases s.len(),
{
    let t = s.update(j, (s[j].0, v));
    if j == s.len() - 1 {
        assert(t.drop_last() =~= s.drop_last());
        assert(fold_entries(t) =~= fold_entries(s).insert(s[j].0, v));
    } else {
        assert(t.drop_last() =~= s.drop_last().update(j, (s[j].0, v)));
        lemma_fold_update(s.drop_last(), j, v);
        assert(s.last().0 != s[j].0);
        assert(fold_entries(t) =~= fold_entries(s).insert(s[j].0, v));
    }
}

/// In the folded map, a key holds the value of its last entry.
pub proof fn lemma_fold_last(s: Seq<(Seq<char>, Value)>, j: int)
    requires
        0 <= j < s.len(),
        forall|a: int| j < a < s.len() ==> #[trigger] s[a].0 != s[j].0,
    ensures
        fold_entries(s).contains_key(s[j].0),
        fold_entries(s)[s[j].0] == s[j].1,
    decreases s.len(),
{
    if j < s.len() - 1 {
        lemma_fold_last(s.drop_last(), j);
        assert(s.last().0 != s[j].0);
    }
}

/// Inserting an entry under a key that no entry holds, at any place, is an
/// insertion into the folded map.
proof fn lemma_fold_insert_new(s: Seq<(Seq<char>, Value)>, j: int, e: (Seq<char>, Value))
    requires
        0 <= j <= s.len(),
        forall|a: int| 0 <= a < s.len() ==> s[a].0 != e.0,
    ensures
        fold_entries(s.insert(j, e)) == fold_entries(s).insert(e.0, e.1),
    decreases s.len(),
{
    let t = s.insert(j, e);
    if j == s.len() {
        assert(t.drop_last() =~= s);
    } else {
        assert(t.drop_last() =~= s.drop_last().insert(j, e));
        lemma_fold_insert_new(s.drop_last(), j, e);
        assert(t.last() == s.last());
        assert(s.last().0 != e.0);
        assert(fold_entries(t) =~= fold_entries(s).insert(e.0, e.1));
    }
}

/// A key that no entry holds is absent from the folded map.
proof fn lemma_fold_absent(s: Seq<(Seq<char>, Value)>, k: Seq<char>)
    requires
        forall|a: int| 0 <= a < s.len() ==> s[a].0 != k,
    ensures
        !fold_entries(s).contains_key(k),
    decreases s.len(),
{
    if s.len() > 0 {
        lemma_fold_absent(s.drop_last(), k);
    }
}

/// A single-depth map from text keys to values, each key held once, its
/// entries ordered by key.
#[derive(Debug, PartialEq)]
pub struct FlatMap {
    pub entries: Vec<(String, Value)>,
}

impl FlatMap {
    /// The entries stand in strictly increasing order of their keys, so no two
    /// share a key.
    pub open spec fn wf(&self) -> bool {
        forall|a: int, b: int|
            0 <= a < b < self.entries@.len() ==> text_lt(
                #[trigger] self.entries@[a].0@,
                #[trigger] self.entries@[b].0@,
            )
    }

    /// Under the order, keys are distinct.
    proof fn lemma_unique(&self)
        requires
            self.wf(),
        ensures
            forall|a: int, b: int|
                0 <= a < self.entries@.len() && 0 <= b < self.entries@.len() && a != b
                    ==> #[trigger] self.entries@[a].0@ != #[trigger] self.entries@[b].0@,
    {
        assert forall|a: int, b: int|
            0 <= a < self.entries@.len() && 0 <= b < self.entries@.len() && a != b
                implies #[trigger] self.entries@[a].0@ != #[trigger] self.entries@[b].0@ by {
            lemma_lt_irreflexive(self.entries@[a].0@);
        }
    }

    pub open spec fn view(&self) -> Map<Seq<char>, Value> {
        fold_entries(entries_view(self.entries@))
    }

    /// An empty map.
    pub fn empty() -> (r: FlatMap)
        ensures
            r.wf(),
            r@ == Map::<Seq<char>, Value>::empty(),
    {
        let r = FlatMap { entries: Vec::new() };
        assert(entries_view(r.entries@) =~= Seq::empty());
        r
    }

    /// The value under `key`, if any.
    pub fn get(&self, key: &str) -> (r: Option<&Value>)
        requires
            self.wf(),
        ensures
            match r {
                Some(v) => self@.contains_key(key@) && self@[key@] == *v,
                None => !self@.contains_key(key@),
            },
    {
        let ghost s = entries_view(self.entries@);
        let mut j: usize = 0;
        while j < self.entries.len()
            invariant
                j <= self.entries@.len(),
                s == entries_view(self.entries@),
                self.wf(),
                forall|a: int| 0 <= a < j ==> self.entries@[a].0@ != key@,
            decreases self.entries@.len() - j,
        {
            if same_text(self.entries[j].0.as_str(), key) {
                proof {
                    self.lemma_unique();
                    assert forall|a: int| j < a < s.len() implies #[trigger] s[a].0 != s[j as int].0 by {
                        assert(self.entries@[j as int].0@ != self.entries@[a].0@);
                    }
                    lemma_fold_last(s, j as int);
                }
                return Some(&self.entries[j].1);
            }
            j = j + 1;
        }
        proof {
            assert forall|a: int| 0 <= a < s.len() implies s[a].0 != key@ by {
                assert(s[a].0 == self.entries@[a].0@);
            }
            lemma_fold_absent(s, key@);
        }
        None
    }

    /// Inserts `value` under `key`, keeping the entries ordered by key; an entry
    /// already under that key is replaced in place.
    pub fn insert(&mut self, key: String, value: Value)
        requires
            old(self).wf(),
        ensures
            final(self).wf(),
            final(self)@ == old(self)@.insert(key@, value),
    {
        let ghost before = entries_view(self.entries@);
        let ghost o = self.entries@;
        proof {
            old(self).lemma_unique();
        }
        let mut j: usize = 0;
        while j < self.entries.len()
            invariant
                j <= self.entries@.len(),
                self.entries@ == o,
                o == old(self).entries@,
                before == entries_view(o),
                old(self).wf(),
                forall|a: int, b: int|
                    0 <= a < o.len() && 0 <= b < o.len() && a != b ==> #[trigger] o[a].0@
                        != #[trigger] o[b].0@,
                forall|a: int| 0 <= a < j ==> text_lt(#[trigger] o[a].0@, key@),
            decreases self.entries@.len() - j,
        {
            let c = compare_text(self.entries[j].0.as_str(), key.as_str());
            if c == 0 {
                let _ = self.entries.remove(j);
                self.entries.insert(j, (key, value));
                proof {
                    let s = before;
                    assert(s.len() == o.len());
                    assert(s[j as int].0 == key@);
                    assert forall|a: int| 0 <= a < s.len() && a != j implies s[a].0 != s[j as int].0 by {
                        assert(s[a].0 == o[a].0@);
                    }
                    assert(entries_view(self.entries@) =~= s.update(j as int, (s[j as int].0, value)));
                    lemma_fold_update(s, j as int, value);
                    assert forall|a: int| 0 <= a < self.entries@.len() implies #[trigger] self.entries@[a].0@ == o[a].0@ by {
                        if a != j {
                            assert(self.entries@[a] == o[a]);
                        }
                    }
                    assert forall|a: int, b: int| 0 <= a < b < self.entries@.len() implies text_lt(
                        #[trigger] self.entries@[a].0@,
                        #[trigger] self.entries@[b].0@,
                    ) by {
                        assert(self.entries@[a].0@ == o[a].0@);
                        assert(self.entries@[b].0@ == o[b].0@);
                    }
                }
                return;
            }
            if c > 0 {
                self.entries.insert(j, (key, value));
                proof {
                    let s = before;
                    let n = self.entries@;
                    assert(s.len() == o.len());
                    assert forall|a: int| 0 <= a < s.len() implies s[a].0 != key@ by {
                        assert(s[a].0 == o[a].0@);
                        lemma_lt_irreflexive(key@);
                        if a > j {
                            assert(text_lt(o[j as int].0@, o[a].0@));
                            lemma_lt_transitive(key@, o[j as int].0@, o[a].0@);
                        }
                    }
                    assert(entries_view(n) =~= s.insert(j as int, (key@, value)));
                    lemma_fold_insert_new(s, j as int, (key@, value));
                    assert forall|a: int, b: int| 0 <= a < b < n.len() implies text_lt(
                        #[trigger] n[a].0@,
                        #[trigger] n[b].0@,
                    ) by {
                        if b < j {
                            assert(n[a] == o[a] && n[b] == o[b]);
                        } else if b == j {
                            assert(n[a] == o[a]);
                        } else if a < j {
                            assert(n[a] == o[a] && n[b] == o[b - 1]);
                            if b - 1 > j {
                                assert(text_lt(o[j as int].0@, o[b - 1].0@));
                                lemma_lt_transitive(key@, o[j as int].0@, o[b - 1].0@);
                            }
                            lemma_lt_transitive(o[a].0@, key@, o[b - 1].0@);
                        } else if a == j {
                            assert(n[b] == o[b - 1]);
                            if b - 1 > j {
                                assert(text_lt(o[j as int].0@, o[b - 1].0@));
                                lemma_lt_transitive(key@, o[j as int].0@, o[b - 1].0@);
                            }
                        } else {
                            assert(n[a] == o[a - 1] && n[b] == o[b - 1]);
                        }
                    }
                }
                return;
            }
            j = j + 1;
        }
        self.entries.push((key, value));
        proof {
            let n = self.entries@;
            assert(entries_view(n).drop_last() =~= before);
            assert forall|a: int| 0 <= a < o.len() implies #[trigger] n[a] == o[a] by {}
            assert forall|a: int, b: int| 0 <= a < b < n.len() implies text_lt(
                #[trigger] n[a].0@,
                #[trigger] n[b].0@,
            ) by {
                assert(n[a] == o[a]);
                if b < o.len() {
                    assert(n[b] == o[b]);
                }
            }
        }
    }

    /// The map that results from inserting `entries` in order: a later entry
    /// overwrites an earlier one with the same key.
    pub fn from_entries(entries: Vec<(String, Value)>) -> (r: FlatMap)
        ensures
            r.wf(),
            r@ == fold_entries(entries_view(entries@)),
    {
        let ghost orig = entries_view(entries@);
        let mut rest = entries;
        let mut r = FlatMap::empty();
        let ghost mut i: int = 0;
        while rest.len() > 0
            invariant
                0 <= i <= orig.len(),
                entries_view(rest@) == orig.subrange(i, orig.len() as int),
                r.wf(),
                r@ == fold_entries(orig.take(i)),
            decreases rest@.len(),
        {
            let ghost pre = rest@;
            let (k, v) = rest.remove(0);
            proof {
                assert(entries_view(pre).len() == pre.len());
                assert(orig.subrange(i, orig.len() as int)[0] == orig[i]);
                assert(entries_view(pre)[0] == orig[i]);
                assert(orig[i] == (k@, v));
                assert(rest@ =~= pre.subrange(1, pre.len() as int));
                assert forall|a: int| 0 <= a < rest@.len() implies entries_view(rest@)[a]
                    == orig.subrange(i + 1, orig.len() as int)[a] by {
                    assert(entries_view(rest@)[a] == entries_view(pre)[a + 1]);
                    assert(orig.subrange(i, orig.len() as int)[a + 1] == orig[i + 1 + a]);
                }
                assert(entries_view(rest@) =~= orig.subrange(i + 1, orig.len() as int));
                assert(orig.take(i + 1).drop_last() =~= orig.take(i));
            }
            r.insert(k, v);
            proof {
                i = i + 1;
            }
        }
        assert(orig.take(i) =~= orig);
        r
    }
}

} // verus!
