//! The shared store: a scalar map and a list map with text keys, backed by
//! association vectors with distinct keys, viewed as mathematical maps.

use crate::num::{i64_to_string, int_chars, parse_i64, parse_int};
use vstd::prelude::*;

verus! {

/// The mapping an association sequence stands for; later entries win,
/// though well-formed stores never repeat a key.
pub open spec fn assoc_map<V: DeepView>(entries: Seq<(String, V)>) -> Map<Seq<char>, V::V>
    decreases entries.len(),
{
    if entries.len() == 0 {
        Map::empty()
    } else {
        assoc_map(entries.drop_last()).insert(entries.last().0@, entries.last().1.deep_view())
    }
}

/// No two entries share a key.
pub open spec fn unique_keys<V>(entries: Seq<(String, V)>) -> bool {
    forall|i: int, j: int|
        0 <= i < j < entries.len() ==> (#[trigger] entries[i]).0@ != (#[trigger] entries[j]).0@
}

/// A key is in the map exactly when some entry holds it.
pub proof fn lemma_assoc_contains<V: DeepView>(entries: Seq<(String, V)>, k: Seq<char>)
    ensures
        assoc_map(entries).contains_key(k) <==> exists|i: int|
            0 <= i < entries.len() && (#[trigger] entries[i]).0@ == k,
    decreases entries.len(),
{
    if entries.len() > 0 {
        let e1 = entries.drop_last();
        lemma_assoc_contains(e1, k);
        if entries.last().0@ == k {
            assert(entries[entries.len() - 1].0@ == k);
        } else {
            if assoc_map(entries).contains_key(k) {
                let i = choose|i: int| 0 <= i < e1.len() && (#[trigger] e1[i]).0@ == k;
                assert(entries[i].0@ == k);
            }
            if exists|i: int| 0 <= i < entries.len() && (#[trigger] entries[i]).0@ == k {
                let i = choose|i: int| 0 <= i < entries.len() && (#[trigger] entries[i]).0@ == k;
                assert(i < entries.len() - 1);
                assert(e1[i].0@ == k);
            }
        }
    }
}

/// In a well-formed association sequence, the map agrees with each entry.
pub proof fn lemma_assoc_at<V: DeepView>(entries: Seq<(String, V)>, i: int)
    requires
        unique_keys(entries),
        0 <= i < entries.len(),
    ensures
        assoc_map(entries).contains_key(entries[i].0@),
        assoc_map(entries)[entries[i].0@] == entries[i].1.deep_view(),
    decreases entries.len(),
{
    let e1 = entries.drop_last();
    if i == entries.len() - 1 {
    } else {
        assert(entries[i].0@ != entries[entries.len() - 1].0@);
        lemma_assoc_at(e1, i);
    }
}

/// Replacing an entry's value, keeping its key, inserts into the map.
pub proof fn lemma_assoc_update<V: DeepView>(entries: Seq<(String, V)>, i: int, p: (String, V))
    requires
        unique_keys(entries),
        0 <= i < entries.len(),
        p.0@ == entries[i].0@,
    ensures
        unique_keys(entries.update(i, p)),
        assoc_map(entries.update(i, p)) =~= assoc_map(entries).insert(p.0@, p.1.deep_view()),
    decreases entries.len(),
{
    let e2 = entries.update(i, p);
    let e1 = entries.drop_last();
    assert forall|a: int, b: int| 0 <= a < b < e2.len() implies (#[trigger] e2[a]).0@ != (
    #[trigger] e2[b]).0@ by {
        assert(entries[a].0@ != entries[b].0@);
    }
    if i == entries.len() - 1 {
        assert(e2.drop_last() =~= e1);
        assert(e2.last() == p);
    } else {
        assert(e2.drop_last() =~= e1.update(i, p));
        assert(e2.last() == entries.last());
        assert(unique_keys(e1)) by {
            assert forall|a: int, b: int| 0 <= a < b < e1.len() implies (#[trigger] e1[a]).0@ != (
            #[trigger] e1[b]).0@ by {
                assert(entries[a].0@ != entries[b].0@);
            }
        }
        lemma_assoc_update(e1, i, p);
        assert(entries[i].0@ != entries[entries.len() - 1].0@);
    }
}

/// Removing an entry removes its key from the map.
pub proof fn lemma_assoc_remove<V: DeepView>(entries: Seq<(String, V)>, i: int)
    requires
        unique_keys(entries),
        0 <= i < entries.len(),
    ensures
        unique_keys(entries.remove(i)),
        assoc_map(entries.remove(i)) =~= assoc_map(entries).remove(entries[i].0@),
    decreases entries.len(),
{
    let k = entries[i].0@;
    let e2 = entries.remove(i);
    let e1 = entries.drop_last();
    assert forall|a: int, b: int| 0 <= a < b < e2.len() implies (#[trigger] e2[a]).0@ != (
    #[trigger] e2[b]).0@ by {
        let a0: int = if a < i {
            a
        } else {
            a + 1
        };
        let b0: int = if b < i {
            b
        } else {
            b + 1
        };
        assert(e2[a] == entries[a0]);
        assert(e2[b] == entries[b0]);
        assert(entries[a0].0@ != entries[b0].0@);
    }
    if i == entries.len() - 1 {
        assert(e2 =~= e1);
        assert(!assoc_map(e1).contains_key(k)) by {
            lemma_assoc_contains(e1, k);
            if exists|j: int| 0 <= j < e1.len() && (#[trigger] e1[j]).0@ == k {
                let j = choose|j: int| 0 <= j < e1.len() && (#[trigger] e1[j]).0@ == k;
                assert(entries[j].0@ == entries[i].0@);
            }
        }
    } else {
        assert(unique_keys(e1)) by {
            assert forall|a: int, b: int| 0 <= a < b < e1.len() implies (#[trigger] e1[a]).0@ != (
            #[trigger] e1[b]).0@ by {
                assert(entries[a].0@ != entries[b].0@);
            }
        }
        assert(e2.drop_last() =~= e1.remove(i));
        assert(e2.last() == entries.last());
        lemma_assoc_remove(e1, i);
        assert(entries[i].0@ != entries[entries.len() - 1].0@);
    }
}

/// The integer a scalar key currently stands for: the stored text parsed
/// as signed decimal, or zero when the key is absent.
pub open spec fn stored_int(m: Map<Seq<char>, Seq<char>>, k: Seq<char>) -> Option<int> {
    if m.contains_key(k) {
        parse_int(m[k])
    } else {
        Some(0)
    }
}

/// Whether adjusting a key by `delta` succeeds: the current value must be
/// an integer within the signed 64-bit range, and so must the sum.
pub open spec fn incr_ok(m: Map<Seq<char>, Seq<char>>, k: Seq<char>, delta: int) -> bool {
    match stored_int(m, k) {
        Option::Some(v) => i64::MIN <= v <= i64::MAX && i64::MIN <= v + delta <= i64::MAX,
        Option::None => false,
    }
}

/// The list stored under a key, empty when the key is absent.
pub open spec fn list_at(m: Map<Seq<char>, Seq<Seq<char>>>, k: Seq<char>) -> Seq<Seq<char>> {
    if m.contains_key(k) {
        m[k]
    } else {
        Seq::empty()
    }
}

/// A stored value that is not an integer, or a step that would leave the
/// signed 64-bit range.
#[derive(Clone, Copy, Debug, PartialEq, Eq, Structural)]
pub struct ValueNotInteger;

/// The store: one scalar map and one list map, sharing nothing but the
/// type of their keys.
pub struct Store {
    scalars: Vec<(String, String)>,
    lists: Vec<(String, Vec<String>)>,
}

impl Store {
    /// The scalar entries, as a mathematical map.
    pub closed spec fn scalar_map(self) -> Map<Seq<char>, Seq<char>> {
        assoc_map(self.scalars@)
    }

    /// The list entries, as a mathematical map.
    pub closed spec fn list_map(self) -> Map<Seq<char>, Seq<Seq<char>>> {
        assoc_map(self.lists@)
    }

    /// Keys are unique within each map.
    pub closed spec fn wf(self) -> bool {
        unique_keys(self.scalars@) && unique_keys(self.lists@)
    }

    /// An empty store.
    pub fn new() -> (r: Store)
        ensures
            r.wf(),
            r.scalar_map() == Map::<Seq<char>, Seq<char>>::empty(),
            r.list_map() == Map::<Seq<char>, Seq<Seq<char>>>::empty(),
    {
        Store { scalars: Vec::new(), lists: Vec::new() }
    }

    /// Index of a key among the scalar entries.
    fn find_scalar(&self, key: &String) -> (r: Option<usize>)
        requires
            self.wf(),
        ensures
            match r {
                Option::Some(i) => i < self.scalars@.len() && self.scalars@[i as int].0@ == key@,
                Option::None => !self.scalar_map().contains_key(key@),
            },
    {
        let mut i: usize = 0;
        while i < self.scalars.len()
            invariant
                self.wf(),
                i <= self.scalars@.len(),
                forall|j: int| 0 <= j < i ==> (#[trigger] self.scalars@[j]).0@ != key@,
            decreases self.scalars@.len() - i,
        {
            if self.scalars[i].0 == *key {
                return Some(i);
            }
            i += 1;
        }
        proof {
            lemma_assoc_contains(self.scalars@, key@);
        }
        None
    }

    /// Index of a key among the list entries.
    fn find_list(&self, key: &String) -> (r: Option<usize>)
        requires
            self.wf(),
        ensures
            match r {
                Option::Some(i) => i < self.lists@.len() && self.lists@[i as int].0@ == key@,
                Option::None => !self.list_map().contains_key(key@),
            },
    {
        let mut i: usize = 0;
        while i < self.lists.len()
            invariant
                self.wf(),
                i <= self.lists@.len(),
                forall|j: int| 0 <= j < i ==> (#[trigger] self.lists@[j]).0@ != key@,
            decreases self.lists@.len() - i,
        {
            if self.lists[i].0 == *key {
                return Some(i);
            }
            i += 1;
        }
        proof {
            lemma_assoc_contains(self.lists@, key@);
        }
        None
    }

    /// The value stored under a scalar key, if any.
    pub fn get(&self, key: &String) -> (r: Option<String>)
        requires
            self.wf(),
        ensures
            match r {
                Option::Some(v) => self.scalar_map().contains_key(key@) && v@
                    == self.scalar_map()[key@],
                Option::None => !self.scalar_map().contains_key(key@),
            },
    {
        match self.find_scalar(key) {
            Option::Some(i) => {
                proof {
                    lemma_assoc_at(self.scalars@, i as int);
                }
                Some(self.scalars[i].1.clone())
            },
            Option::None => None,
        }
    }

    /// Stores a scalar value under a key, replacing any previous value.
    pub fn set(&mut self, key: &String, value: &String)
        requires
            old(self).wf(),
        ensures
            final(self).wf(),
            final(self).scalar_map() == old(self).scalar_map().insert(key@, value@),
            final(self).list_map() == old(self).list_map(),
    {
        match self.find_scalar(key) {
            Option::Some(i) => {
                let p = (key.clone(), value.clone());
                proof {
                    lemma_assoc_update(self.scalars@, i as int, p);
                }
                self.scalars[i] = p;
                proof {
                    assert(final(self).scalar_map() =~= old(self).scalar_map().insert(
                        key@,
                        value@,
                    ));
                }
            },
            Option::None => {
                proof {
                    lemma_assoc_contains(self.scalars@, key@);
                }
                self.scalars.push((key.clone(), value.clone()));
                proof {
                    assert(self.scalars@.drop_last() =~= old(self).scalars@);
                    assert(forall|j: int|
                        0 <= j < old(self).scalars@.len() ==> (#[trigger] old(
                            self,
                        ).scalars@[j]).0@ != key@) by {
                        lemma_assoc_contains(old(self).scalars@, key@);
                    }
                }
            },
        }
    }

    /// Whether a scalar key is present.
    pub fn has_key(&self, key: &String) -> (r: bool)
        requires
            self.wf(),
        ensures
            r == self.scalar_map().contains_key(key@),
    {
        match self.find_scalar(key) {
            Option::Some(i) => {
                proof {
                    lemma_assoc_at(self.scalars@, i as int);
                }
                true
            },
            Option::None => false,
        }
    }

    /// Removes a scalar key; reports whether it was present.
    pub fn remove(&mut self, key: &String) -> (r: bool)
        requires
            old(self).wf(),
        ensures
            final(self).wf(),
            r == old(self).scalar_map().contains_key(key@),
            final(self).scalar_map() == old(self).scalar_map().remove(key@),
            final(self).list_map() == old(self).list_map(),
    {
        match self.find_scalar(key) {
            Option::Some(i) => {
                proof {
                    lemma_assoc_at(self.scalars@, i as int);
                    lemma_assoc_remove(self.scalars@, i as int);
                }
                self.scalars.remove(i);
                true
            },
            Option::None => {
                proof {
                    assert(old(self).scalar_map().remove(key@) =~= old(self).scalar_map());
                }
                false
            },
        }
    }

    /// Adds `delta` (one, or minus one) to the integer stored under a
    /// scalar key, treating an absent key as zero, and stores the new
    /// value back as text.
    pub fn incr_by(&mut self, key: &String, delta: i64) -> (r: Result<i64, ValueNotInteger>)
        requires
            old(self).wf(),
            delta == 1i64 || delta == -1i64,
        ensures
            final(self).wf(),
            final(self).list_map() == old(self).list_map(),
            match r {
                Ok(nv) => incr_ok(old(self).scalar_map(), key@, delta as int) && nv as int
                    == stored_int(old(self).scalar_map(), key@)->Some_0 + delta
                    && final(self).scalar_map() == old(self).scalar_map().insert(
                    key@,
                    int_chars(nv as int),
                ),
                Err(_) => !incr_ok(old(self).scalar_map(), key@, delta as int)
                    && final(self).scalar_map() == old(self).scalar_map(),
            },
    {
        match self.find_scalar(key) {
            Option::Some(i) => {
                proof {
                    lemma_assoc_at(self.scalars@, i as int);
                }
                match parse_i64(self.scalars[i].1.as_str()) {
                    Option::None => Err(ValueNotInteger),
                    Option::Some(v) => match v.checked_add(delta) {
                        Option::None => Err(ValueNotInteger),
                        Option::Some(nv) => {
                            let p = (key.clone(), i64_to_string(nv));
                            proof {
                                lemma_assoc_update(self.scalars@, i as int, p);
                            }
                            self.scalars[i] = p;
                            proof {
                                assert(self.scalar_map() =~= old(self).scalar_map().insert(
                                    key@,
                                    int_chars(nv as int),
                                ));
                            }
                            Ok(nv)
                        },
                    },
                }
            },
            Option::None => {
                let nv = delta;
                let p = (key.clone(), i64_to_string(nv));
                proof {
                    lemma_assoc_contains(self.scalars@, key@);
                }
                self.scalars.push(p);
                proof {
                    assert(self.scalars@.drop_last() =~= old(self).scalars@);
                    assert(forall|j: int|
                        0 <= j < old(self).scalars@.len() ==> (#[trigger] old(
                            self,
                        ).scalars@[j]).0@ != key@) by {
                        lemma_assoc_contains(old(self).scalars@, key@);
                    }
                }
                Ok(nv)
            },
        }
    }

    /// The list stored under a key, if any, as a fresh vector.
    pub fn get_list(&self, key: &String) -> (r: Option<Vec<String>>)
        requires
            self.wf(),
        ensures
            match r {
                Option::Some(v) => self.list_map().contains_key(key@) && v.deep_view()
                    == self.list_map()[key@],
                Option::None => !self.list_map().contains_key(key@),
            },
    {
        match self.find_list(key) {
            Option::Some(i) => {
                proof {
                    lemma_assoc_at(self.lists@, i as int);
                }
                let src_list = &self.lists[i].1;
                let mut out: Vec<String> = Vec::new();
                proof {
                    assert(out.deep_view() =~= src_list.deep_view().subrange(0, 0));
                }
                let mut j: usize = 0;
                while j < src_list.len()
                    invariant
                        j <= src_list@.len(),
                        out.deep_view() == src_list.deep_view().subrange(0, j as int),
                    decreases src_list@.len() - j,
                {
                    let ghost prev = out@;
                    let ghost prevdv = out.deep_view();
                    out.push(src_list[j].clone());
                    proof {
                        assert(out@ == prev.push(src_list@[j as int]));
                        assert(prevdv.len() == prev.len());
                        assert forall|t: int| 0 <= t < out@.len() implies out.deep_view()[t]
                            == src_list.deep_view().subrange(0, j + 1int)[t] by {
                            if t < prev.len() {
                                assert(out@[t] == prev[t]);
                                assert(prevdv[t] == prev[t].deep_view());
                                assert(prevdv[t] == src_list.deep_view().subrange(0, j as int)[t]);
                            } else {
                                assert(out@[t] == src_list@[j as int]);
                            }
                        }
                        assert(out.deep_view() =~= src_list.deep_view().subrange(0, j + 1int));
                    }
                    j += 1;
                }
                proof {
                    assert(src_list.deep_view().subrange(
                        0,
                        src_list@.len() as int,
                    ) =~= src_list.deep_view());
                }
                Some(out)
            },
            Option::None => None,
        }
    }

    /// Appends the given values, in order, to the list stored under a
    /// key, creating the list when absent; returns the new length.
    pub fn push_right(&mut self, key: &String, values: &Vec<String>) -> (r: usize)
        requires
            old(self).wf(),
        ensures
            final(self).wf(),
            final(self).scalar_map() == old(self).scalar_map(),
            final(self).list_map() == old(self).list_map().insert(
                key@,
                list_at(old(self).list_map(), key@) + values.deep_view(),
            ),
            r == list_at(old(self).list_map(), key@).len() + values.deep_view().len(),
    {
        let ghost old_list = list_at(old(self).list_map(), key@);
        let mut entry: (String, Vec<String>) = match self.find_list(key) {
            Option::Some(i) => {
                proof {
                    lemma_assoc_at(self.lists@, i as int);
                    lemma_assoc_remove(self.lists@, i as int);
                }
                self.lists.remove(i)
            },
            Option::None => {
                proof {
                    lemma_assoc_contains(self.lists@, key@);
                    assert(old(self).list_map().remove(key@) =~= old(self).list_map());
                }
                (key.clone(), Vec::new())
            },
        };
        proof {
            lemma_assoc_contains(self.lists@, key@);
            assert(entry.1.deep_view() =~= old_list + values.deep_view().subrange(0, 0));
        }
        let mut j: usize = 0;
        while j < values.len()
            invariant
                j <= values@.len(),
                self.scalars@ == old(self).scalars@,
                unique_keys(self.lists@),
                assoc_map(self.lists@) =~= old(self).list_map().remove(key@),
                forall|t: int| 0 <= t < self.lists@.len() ==> (#[trigger] self.lists@[t]).0@
                    != key@,
                entry.0@ == key@,
                entry.1.deep_view() == old_list + values.deep_view().subrange(0, j as int),
                old_list == list_at(old(self).list_map(), key@),
            decreases values@.len() - j,
        {
            let ghost prev = entry.1@;
            let ghost prevdv = entry.1.deep_view();
            entry.1.push(values[j].clone());
            proof {
                assert(entry.1@ == prev.push(values@[j as int]));
                assert(prevdv.len() == prev.len());
                assert(prevdv.len() == old_list.len() + j);
                assert forall|t: int| 0 <= t < entry.1@.len() implies entry.1.deep_view()[t] == (
                old_list + values.deep_view().subrange(0, j + 1int))[t] by {
                    if t < prev.len() {
                        assert(entry.1@[t] == prev[t]);
                        assert(prevdv[t] == prev[t].deep_view());
                        assert(prevdv[t] == (old_list + values.deep_view().subrange(
                            0,
                            j as int,
                        ))[t]);
                    } else {
                        assert(entry.1@[t] == values@[j as int]);
                    }
                }
                assert(entry.1.deep_view() =~= old_list + values.deep_view().subrange(
                    0,
                    j + 1int,
                ));
            }
            j += 1;
        }
        let n = entry.1.len();
        proof {
            assert(values.deep_view().subrange(0, values@.len() as int) =~= values.deep_view());
        }
        let ghost pre = self.lists@;
        self.lists.push(entry);
        proof {
            assert(self.lists@.drop_last() =~= pre);
            assert forall|a: int, b: int| 0 <= a < b < self.lists@.len() implies (
            #[trigger] self.lists@[a]).0@ != (#[trigger] self.lists@[b]).0@ by {
                if b < self.lists@.len() - 1 {
                    assert(pre[a].0@ != pre[b].0@);
                } else {
                    assert(pre[a].0@ != key@);
                }
            }
            assert(self.list_map() =~= old(self).list_map().insert(
                key@,
                list_at(old(self).list_map(), key@) + values.deep_view(),
            ));
        }
        n
    }

    /// Inserts the given values one by one at the front of the list
    /// stored under a key, so that later values end up closer to the
    /// front, creating the list when absent; returns the new length.
    pub fn push_left(&mut self, key: &String, values: &Vec<String>) -> (r: usize)
        requires
            old(self).wf(),
        ensures
            final(self).wf(),
            final(self).scalar_map() == old(self).scalar_map(),
            final(self).list_map() == old(self).list_map().insert(
                key@,
                values.deep_view().reverse() + list_at(old(self).list_map(), key@),
            ),
            r == list_at(old(self).list_map(), key@).len() + values.deep_view().len(),
    {
        let ghost old_list = list_at(old(self).list_map(), key@);
        let mut entry: (String, Vec<String>) = match self.find_list(key) {
            Option::Some(i) => {
                proof {
                    lemma_assoc_at(self.lists@, i as int);
                    lemma_assoc_remove(self.lists@, i as int);
                }
                self.lists.remove(i)
            },
            Option::None => {
                proof {
                    lemma_assoc_contains(self.lists@, key@);
                    assert(old(self).list_map().remove(key@) =~= old(self).list_map());
                }
                (key.clone(), Vec::new())
            },
        };
        proof {
            lemma_assoc_contains(self.lists@, key@);
        }
        let mut fresh: Vec<String> = Vec::new();
        let mut j: usize = values.len();
        proof {
            assert(fresh.deep_view() =~= values.deep_view().subrange(
                j as int,
                values@.len() as int,
            ).reverse());
        }
        while j > 0
            invariant
                j <= values@.len(),
                self.scalars@ == old(self).scalars@,
                unique_keys(self.lists@),
                assoc_map(self.lists@) =~= old(self).list_map().remove(key@),
                forall|t: int| 0 <= t < self.lists@.len() ==> (#[trigger] self.lists@[t]).0@
                    != key@,
                entry.0@ == key@,
                entry.1.deep_view() == old_list,
                old_list == list_at(old(self).list_map(), key@),
                fresh.deep_view() == values.deep_view().subrange(
                    j as int,
                    values@.len() as int,
                ).reverse(),
            decreases j,
        {
            let ghost prev = fresh@;
            let ghost prevdv = fresh.deep_view();
            fresh.push(values[j - 1].clone());
            j -= 1;
            proof {
                let n = values@.len() as int;
                let dv = values.deep_view();
                let sub_old = dv.subrange(j + 1int, n);
                let sub_new = dv.subrange(j as int, n);
                assert(fresh@ == prev.push(values@[j as int]));
                assert(prevdv.len() == prev.len());
                assert(prevdv.len() == sub_old.len());
                assert(sub_new.len() == n - j);
                assert forall|t: int| 0 <= t < fresh@.len() implies fresh.deep_view()[t]
                    == sub_new.reverse()[t] by {
                    assert(sub_new.reverse()[t] == sub_new[sub_new.len() - 1 - t]);
                    assert(sub_new[sub_new.len() - 1 - t] == dv[n - 1 - t]);
                    if t < prev.len() {
                        assert(fresh@[t] == prev[t]);
                        assert(prevdv[t] == prev[t].deep_view());
                        assert(prevdv[t] == sub_old.reverse()[t]);
                        assert(sub_old.reverse()[t] == sub_old[sub_old.len() - 1 - t]);
                        assert(sub_old[sub_old.len() - 1 - t] == dv[n - 1 - t]);
                    } else {
                        assert(t == prev.len());
                        assert(fresh@[t] == values@[j as int]);
                        assert(n - 1 - t == j as int);
                    }
                }
                assert(fresh.deep_view() =~= sub_new.reverse());
            }
        }
        proof {
            assert(values.deep_view().subrange(0, values@.len() as int) =~= values.deep_view());
        }
        let ghost revdv = fresh.deep_view();
        let ghost prevf = fresh@;
        let ghost prevl = entry.1@;
        let ghost prevldv = entry.1.deep_view();
        fresh.append(&mut entry.1);
        entry.1 = fresh;
        proof {
            assert(entry.1@ == prevf + prevl);
            assert forall|t: int| 0 <= t < entry.1@.len() implies entry.1.deep_view()[t] == (
            values.deep_view().reverse() + old_list)[t] by {
                if t < prevf.len() {
                    assert(entry.1@[t] == prevf[t]);
                    assert(revdv[t] == prevf[t].deep_view());
                    assert(values.deep_view().subrange(0, values@.len() as int)
                        == values.deep_view());
                } else {
                    assert(entry.1@[t] == prevl[t - prevf.len()]);
                    assert(prevldv[t - prevf.len()] == prevl[t - prevf.len()].deep_view());
                }
            }
            assert(entry.1.deep_view() =~= values.deep_view().reverse() + old_list);
        }
        let n = entry.1.len();
        let ghost pre = self.lists@;
        self.lists.push(entry);
        proof {
            assert(self.lists@.drop_last() =~= pre);
            assert forall|a: int, b: int| 0 <= a < b < self.lists@.len() implies (
            #[trigger] self.lists@[a]).0@ != (#[trigger] self.lists@[b]).0@ by {
                if b < self.lists@.len() - 1 {
                    assert(pre[a].0@ != pre[b].0@);
                } else {
                    assert(pre[a].0@ != key@);
                }
            }
            assert(self.list_map() =~= old(self).list_map().insert(
                key@,
                values.deep_view().reverse() + list_at(old(self).list_map(), key@),
            ));
        }
        n
    }
}

} // verus!
