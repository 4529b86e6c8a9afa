//! A header map: name–value pairs with unique keys, where a later insert
//! of an existing key overwrites its value in place.
use vstd::prelude::*;
use crate::strings::str_eq;

verus! {

/// The pairs folded into a map, later pairs winning.
pub open spec fn seq_to_map(s: Seq<(Seq<char>, Seq<char>)>) -> Map<Seq<char>, Seq<char>>
    decreases s.len(),
{
    if s.len() == 0 {
        Map::empty()
    } else {
        seq_to_map(s.drop_last()).insert(s.last().0, s.last().1)
    }
}

/// A header map. Keys are case-sensitive and unique; iteration order is
/// insertion order.
pub struct Headers {
    entries: Vec<(String, String)>,
}

impl Headers {
    /// The pairs in iteration order.
    pub closed spec fn seq_view(&self) -> Seq<(Seq<char>, Seq<char>)> {
        self.entries@.map_values(|p: (String, String)| (p.0@, p.1@))
    }

    /// The pairs as a map from name to value.
    pub open spec fn map_view(&self) -> Map<Seq<char>, Seq<char>> {
        seq_to_map(self.seq_view())
    }

    /// Keys are pairwise distinct.
    pub open spec fn wf(&self) -> bool {
        forall|i: int, j: int|
            0 <= i < j < self.seq_view().len() ==> #[trigger] self.seq_view()[i].0
                != #[trigger] self.seq_view()[j].0
    }

    /// An empty header map.
    pub fn new() -> (r: Headers)
        ensures
            r.seq_view() == Seq::<(Seq<char>, Seq<char>)>::empty(),
            r.wf(),
    {
        let r = Headers { entries: Vec::new() };
        assert(r.seq_view() =~= Seq::<(Seq<char>, Seq<char>)>::empty());
        r
    }

    /// How many headers are held.
    pub fn len(&self) -> (r: usize)
        ensures
            r == self.seq_view().len(),
    {
        self.entries.len()
    }

    /// The name of the header at position `i`.
    pub fn key_at(&self, i: usize) -> (r: &String)
        requires
            i < self.seq_view().len(),
        ensures
            r@ == self.seq_view()[i as int].0,
    {
        &self.entries[i].0
    }

    /// The value of the header at position `i`.
    pub fn value_at(&self, i: usize) -> (r: &String)
        requires
            i < self.seq_view().len(),
        ensures
            r@ == self.seq_view()[i as int].1,
    {
        &self.entries[i].1
    }

    /// Sets `name` to `value`: overwrites in place when the name is
    /// present, else appends; either way the map gains `name -> value`.
    pub fn insert(&mut self, name: String, value: String)
        requires
            old(self).wf(),
        ensures
            final(self).wf(),
            final(self).map_view() == old(self).map_view().insert(name@, value@),
            old(self).map_view().contains_key(name@) ==> exists|j: int|
                0 <= j < old(self).seq_view().len() && old(self).seq_view()[j].0 == name@
                    && final(self).seq_view() == old(self).seq_view().update(j, (name@, value@)),
            !old(self).map_view().contains_key(name@) ==> final(self).seq_view() == old(
                self,
            ).seq_view().push((name@, value@)),
    {
        let n = self.entries.len();
        let mut j: usize = 0;
        while j < n
            invariant
                *self == *old(self),
                n == self.seq_view().len(),
                0 <= j <= n,
                self.wf(),
                forall|k: int| 0 <= k < j ==> #[trigger] self.seq_view()[k].0 != name@,
            decreases n - j,
        {
            if str_eq(self.entries[j].0.as_str(), name.as_str()) {
                let ghost old_seq = self.seq_view();
                proof {
                    lemma_seq_to_map_at(old_seq, j as int);
                }
                self.entries.set(j, (name, value));
                proof {
                    assert(self.seq_view() =~= old_seq.update(j as int, (name@, value@)));
                    lemma_seq_to_map_update(old_seq, j as int, value@);
                    assert(old_seq[j as int].0 == name@ && self.seq_view() == old_seq.update(
                        j as int,
                        (name@, value@),
                    ));
                    assert(self.wf());
                }
                return ;
            }
            j += 1;
        }
        let ghost old_seq = self.seq_view();
        proof {
            lemma_seq_to_map_absent(old_seq, name@);
        }
        self.entries.push((name, value));
        proof {
            assert(self.seq_view() =~= old_seq.push((name@, value@)));
            assert(self.seq_view().drop_last() =~= old_seq);
            assert(self.seq_view().last() == (name@, value@));
            assert(seq_to_map(self.seq_view()) == seq_to_map(old_seq).insert(name@, value@));
            assert(self.wf());
        }
    }

    /// Looks a name up in the map.
    pub fn get(&self, name: &str) -> (r: Option<&String>)
        requires
            self.wf(),
        ensures
            match r {
                Option::Some(v) => self.map_view().contains_key(name@) && v@ == self.map_view()[name@],
                Option::None => !self.map_view().contains_key(name@),
            },
    {
        let n = self.entries.len();
        let mut j: usize = 0;
        while j < n
            invariant
                n == self.seq_view().len(),
                0 <= j <= n,
                self.wf(),
                forall|k: int| 0 <= k < j ==> #[trigger] self.seq_view()[k].0 != name@,
            decreases n - j,
        {
            if str_eq(self.entries[j].0.as_str(), name) {
                proof {
                    lemma_seq_to_map_at(self.seq_view(), j as int);
                }
                return Some(&self.entries[j].1);
            }
            j += 1;
        }
        proof {
            lemma_seq_to_map_absent(self.seq_view(), name@);
        }
        None
    }

    /// A copy holding the same pairs in the same order.
    pub fn duplicate(&self) -> (r: Headers)
        ensures
            r.seq_view() == self.seq_view(),
    {
        let n = self.entries.len();
        let mut entries: Vec<(String, String)> = Vec::new();
        let mut j: usize = 0;
        while j < n
            invariant
                n == self.seq_view().len(),
                0 <= j <= n,
                entries@.map_values(|p: (String, String)| (p.0@, p.1@)) =~= self.seq_view().take(
                    j as int,
                ),
            decreases n - j,
        {
            let k = String::from_str(self.entries[j].0.as_str());
            let v = String::from_str(self.entries[j].1.as_str());
            entries.push((k, v));
            proof {
                let prev = entries@.drop_last();
                let m = entries@.map_values(|p: (String, String)| (p.0@, p.1@));
                assert(entries@.len() == prev.len() + 1);
                assert(m.len() == entries@.len());
                assert(prev.map_values(|p: (String, String)| (p.0@, p.1@)) =~= self.seq_view().take(
                    j as int,
                ));
                assert(m[j as int] == (k@, v@));
                assert(forall|t: int| 0 <= t < j ==> m[t] == prev.map_values(
                    |p: (String, String)| (p.0@, p.1@),
                )[t]);
                assert(m =~= self.seq_view().take(j as int + 1));
            }
            j += 1;
        }
        let r = Headers { entries };
        assert(r.seq_view() =~= self.seq_view());
        r
    }
}

/// Updating the value at an existing key folds to a plain map insert.
proof fn lemma_seq_to_map_update(s: Seq<(Seq<char>, Seq<char>)>, j: int, v: Seq<char>)
    requires
        0 <= j < s.len(),
        forall|a: int, b: int| 0 <= a < b < s.len() ==> #[trigger] s[a].0 != #[trigger] s[b].0,
    ensures
        seq_to_map(s.update(j, (s[j].0, v))) == seq_to_map(s).insert(s[j].0, v),
    decreases s.len(),
{
    let t = s.update(j, (s[j].0, v));
    if j == s.len() - 1 {
        assert(t.drop_last() =~= s.drop_last());
        assert(seq_to_map(t) =~= seq_to_map(s).insert(s[j].0, v));
    } else {
        assert(t.drop_last() =~= s.drop_last().update(j, (s[j].0, v)));
        lemma_seq_to_map_update(s.drop_last(), j, v);
        assert(s[j].0 != s.last().0);
        assert(seq_to_map(t) =~= seq_to_map(s).insert(s[j].0, v));
    }
}

/// Any held pair is in the folded map when keys are unique.
proof fn lemma_seq_to_map_at(s: Seq<(Seq<char>, Seq<char>)>, j: int)
    requires
        0 <= j < s.len(),
        forall|a: int, b: int| 0 <= a < b < s.len() ==> #[trigger] s[a].0 != #[trigger] s[b].0,
    ensures
        seq_to_map(s).contains_key(s[j].0),
        seq_to_map(s)[s[j].0] == s[j].1,
    decreases s.len(),
{
    if j < s.len() - 1 {
        lemma_seq_to_map_at(s.drop_last(), j);
        assert(s[j].0 != s.last().0);
    }
}

/// A key held by no pair is not in the folded map.
proof fn lemma_seq_to_map_absent(s: Seq<(Seq<char>, Seq<char>)>, k: Seq<char>)
    requires
        forall|a: int| 0 <= a < s.len() ==> #[trigger] s[a].0 != k,
    ensures
        !seq_to_map(s).contains_key(k),
    decreases s.len(),
{
    if s.len() > 0 {
        lemma_seq_to_map_absent(s.drop_last(), k);
    }
}

} // verus!
