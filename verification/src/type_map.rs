//! A map from variable names to type names: each name is held once, and
//! inserting a name again replaces its type.
use vstd::prelude::*;

use crate::text::same_text;

verus! {

/// The names of a list of entries.
pub open spec fn entry_names(e: Seq<(String, String)>) -> Seq<Seq<char>> {
    e.map_values(|p: (String, String)| p.0@)
}

/// The map that a list of entries stands for, later entries over earlier ones.
pub open spec fn entries_map(e: Seq<(String, String)>) -> Map<Seq<char>, Seq<char>>
    decreases e.len(),
{
    if e.len() == 0 {
        Map::empty()
    } else {
        entries_map(e.drop_last()).insert(e.last().0@, e.last().1@)
    }
}

proof fn lemma_entries_absent(e: Seq<(String, String)>, k: Seq<char>)
    requires
        forall|j: int| 0 <= j < e.len() ==> (#[trigger] e[j]).0@ != k,
    ensures
        !entries_map(e).contains_key(k),
    decreases e.len(),
{
    if e.len() > 0 {
        let d = e.drop_last();
        assert forall|j: int| 0 <= j < d.len() implies (#[trigger] d[j]).0@ != k by {
            assert(d[j] == e[j]);
        }
        lemma_entries_absent(d, k);
        assert(e.last() == e[e.len() - 1]);
    }
}

proof fn lemma_entries_lookup(e: Seq<(String, String)>, j: int)
    requires
        entry_names(e).no_duplicates(),
        0 <= j < e.len(),
    ensures
        entries_map(e).contains_key(e[j].0@),
        entries_map(e)[e[j].0@] == e[j].1@,
    decreases e.len(),
{
    let d = e.drop_last();
    if j < e.len() - 1 {
        assert(entry_names(d) =~= entry_names(e).drop_last());
        assert(entry_names(d).no_duplicates()) by {
            assert forall|a: int, b: int|
                0 <= a < entry_names(d).len() && 0 <= b < entry_names(d).len() && a != b implies entry_names(
                d,
            )[a] != entry_names(d)[b] by {
                assert(entry_names(d)[a] == entry_names(e)[a]);
                assert(entry_names(d)[b] == entry_names(e)[b]);
            }
        }
        lemma_entries_lookup(d, j);
        assert(d[j] == e[j]);
        assert(entry_names(e)[j] != entry_names(e)[e.len() - 1]);
        assert(e.last() == e[e.len() - 1]);
    }
}

proof fn lemma_names_drop_last(e: Seq<(String, String)>)
    requires
        entry_names(e).no_duplicates(),
        e.len() > 0,
    ensures
        entry_names(e.drop_last()).no_duplicates(),
        forall|j: int| 0 <= j < e.len() - 1 ==> (#[trigger] e[j]).0@ != e.last().0@,
{
    let d = e.drop_last();
    assert forall|a: int, b: int|
        0 <= a < entry_names(d).len() && 0 <= b < entry_names(d).len() && a != b implies entry_names(
        d,
    )[a] != entry_names(d)[b] by {
        assert(entry_names(d)[a] == entry_names(e)[a]);
        assert(entry_names(d)[b] == entry_names(e)[b]);
    }
    assert forall|j: int| 0 <= j < e.len() - 1 implies (#[trigger] e[j]).0@ != e.last().0@ by {
        assert(entry_names(e)[j] == e[j].0@);
        assert(entry_names(e)[e.len() - 1] == e.last().0@);
    }
}

proof fn lemma_entries_update(e: Seq<(String, String)>, j: int, v: String)
    requires
        entry_names(e).no_duplicates(),
        0 <= j < e.len(),
    ensures
        entries_map(e.update(j, (e[j].0, v))) == entries_map(e).insert(e[j].0@, v@),
    decreases e.len(),
{
    let u = e.update(j, (e[j].0, v));
    let k = e[j].0@;
    lemma_names_drop_last(e);
    if j == e.len() - 1 {
        assert(u.drop_last() =~= e.drop_last());
        assert(u.last() == (e[j].0, v));
        lemma_entries_absent(e.drop_last(), k);
        assert(entries_map(u) =~= entries_map(e).insert(k, v@));
    } else {
        let d = e.drop_last();
        lemma_entries_update(d, j, v);
        assert(u.drop_last() =~= d.update(j, (d[j].0, v)));
        assert(u.last() == e.last());
        assert(e.last().0@ != k);
        assert(entries_map(u) =~= entries_map(e).insert(k, v@));
    }
}

/// Variable names with the type name chosen for each.
pub struct TypeMap {
    entries: Vec<(String, String)>,
}

impl View for TypeMap {
    type V = Map<Seq<char>, Seq<char>>;

    closed spec fn view(&self) -> Map<Seq<char>, Seq<char>> {
        entries_map(self.entries@)
    }
}

impl TypeMap {
    #[verifier::type_invariant]
    spec fn names_once(self) -> bool {
        entry_names(self.entries@).no_duplicates()
    }

    /// The empty map.
    pub fn new() -> (m: TypeMap)
        ensures
            m@ == Map::<Seq<char>, Seq<char>>::empty(),
    {
        let m = TypeMap { entries: Vec::new() };
        proof {
            assert(entry_names(m.entries@) =~= Seq::<Seq<char>>::empty());
        }
        m
    }

    /// The number of names in the map.
    pub fn len(&self) -> (n: usize)
        ensures
            n == self@.len(),
    {
        proof {
            use_type_invariant(self);
            lemma_entries_len(self.entries@);
        }
        self.entries.len()
    }

    /// The type name of `name`, if the map holds it.
    pub fn get(&self, name: &str) -> (r: Option<&String>)
        ensures
            match r {
                Some(t) => self@.contains_key(name@) && self@[name@] == t@,
                None => !self@.contains_key(name@),
            },
    {
        proof {
            use_type_invariant(self);
        }
        match position_in(&self.entries, name) {
            Some(j) => {
                proof {
                    lemma_entries_lookup(self.entries@, j as int);
                }
                Some(&self.entries[j].1)
            },
            None => {
                proof {
                    lemma_entries_absent(self.entries@, name@);
                }
                None
            },
        }
    }

    /// Sets the type name of `name` to `ty`, replacing any earlier one.
    pub fn insert(&mut self, name: String, ty: String)
        ensures
            final(self)@ == old(self)@.insert(name@, ty@),
    {
        proof {
            use_type_invariant(&*self);
        }
        let ghost old_entries = self.entries@;
        let mut entries = Vec::new();
        std::mem::swap(&mut entries, &mut self.entries);
        match position_in(&entries, name.as_str()) {
            Some(j) => {
                let ghost key = entries@[j as int].0;
                proof {
                    lemma_entries_update(old_entries, j as int, ty);
                }
                let old_name = entries[j].0.clone();
                entries.set(j, (old_name, ty));
                proof {
                    assert(entries@ =~= old_entries.update(j as int, (key, ty)));
                    assert(entry_names(entries@) =~= entry_names(old_entries));
                }
            },
            None => {
                let ghost k = name@;
                let ghost v = ty@;
                entries.push((name, ty));
                proof {
                    assert(entries@.drop_last() =~= old_entries);
                    assert(entry_names(entries@) =~= entry_names(old_entries).push(k));
                    assert(entry_names(entries@).no_duplicates()) by {
                        let en = entry_names(entries@);
                        assert forall|a: int, b: int|
                            0 <= a < en.len() && 0 <= b < en.len() && a != b implies en[a]
                            != en[b] by {
                            if a < old_entries.len() && b < old_entries.len() {
                                assert(en[a] == entry_names(old_entries)[a]);
                                assert(en[b] == entry_names(old_entries)[b]);
                            } else if a < old_entries.len() {
                                assert(en[a] == old_entries[a].0@);
                            } else if b < old_entries.len() {
                                assert(en[b] == old_entries[b].0@);
                            }
                        }
                    }
                }
            },
        }
        self.entries = entries;
    }
}

/// Position of `name` among `entries`.
fn position_in(entries: &Vec<(String, String)>, name: &str) -> (r: Option<usize>)
    ensures
        match r {
            Some(j) => j < entries@.len() && entries@[j as int].0@ == name@,
            None => forall|j: int|
                0 <= j < entries@.len() ==> (#[trigger] entries@[j]).0@ != name@,
        },
{
    let n = entries.len();
    let mut i: usize = 0;
    while i < n
        invariant
            n == entries@.len(),
            i <= n,
            forall|j: int| 0 <= j < i ==> (#[trigger] entries@[j]).0@ != name@,
        decreases n - i,
    {
        if same_text(entries[i].0.as_str(), name) {
            return Some(i);
        }
        i = i + 1;
    }
    None
}

proof fn lemma_entries_len(e: Seq<(String, String)>)
    requires
        entry_names(e).no_duplicates(),
    ensures
        entries_map(e).len() == e.len(),
        entries_map(e).dom().finite(),
    decreases e.len(),
{
    if e.len() > 0 {
        lemma_names_drop_last(e);
        lemma_entries_len(e.drop_last());
        assert forall|j: int| 0 <= j < e.drop_last().len() implies (
        #[trigger] e.drop_last()[j]).0@ != e.last().0@ by {
            assert(e.drop_last()[j] == e[j]);
        }
        lemma_entries_absent(e.drop_last(), e.last().0@);
    }
}

} // verus!
