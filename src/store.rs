use vstd::prelude::*;

verus! {

/// The server's key-value map. Entries are kept in a vector; a later entry for
/// a key stands over an earlier one, and `insert` never adds a second entry for
/// a key that is already there.
pub struct Store {
    entries: Vec<(String, String)>,
}

pub open spec fn map_of(s: Seq<(String, String)>) -> Map<Seq<char>, Seq<char>>
    decreases s.len(),
{
    if s.len() == 0 {
        Map::empty()
    } else {
        map_of(s.drop_last()).insert(s.last().0@, s.last().1@)
    }
}

proof fn lemma_found(s: Seq<(String, String)>, i: int, k: Seq<char>)
    requires
        0 <= i < s.len(),
        s[i].0@ == k,
        forall|j: int| i < j < s.len() ==> (#[trigger] s[j]).0@ != k,
    ensures
        map_of(s).contains_key(k),
        map_of(s)[k] == s[i].1@,
    decreases s.len(),
{
    if i < s.len() - 1 {
        lemma_found(s.drop_last(), i, k);
        assert(s[s.len() - 1].0@ != k);
    }
}

proof fn lemma_absent(s: Seq<(String, String)>, k: Seq<char>)
    requires
        forall|j: int| 0 <= j < s.len() ==> (#[trigger] s[j]).0@ != k,
    ensures
        !map_of(s).contains_key(k),
    decreases s.len(),
{
    if s.len() > 0 {
        lemma_absent(s.drop_last(), k);
        assert(s[s.len() - 1].0@ != k);
    }
}

proof fn lemma_replace(s: Seq<(String, String)>, i: int, x: (String, String))
    requires
        0 <= i < s.len(),
        s[i].0@ == x.0@,
        forall|j: int| i < j < s.len() ==> (#[trigger] s[j]).0@ != x.0@,
    ensures
        map_of(s.update(i, x)) == map_of(s).insert(x.0@, x.1@),
    decreases s.len(),
{
    let t = s.update(i, x);
    if i == s.len() - 1 {
        assert(t.drop_last() =~= s.drop_last());
        assert(map_of(t) =~= map_of(s).insert(x.0@, x.1@));
    } else {
        assert(t.drop_last() =~= s.drop_last().update(i, x));
        lemma_replace(s.drop_last(), i, x);
        assert(s[s.len() - 1].0@ != x.0@);
        assert(map_of(t) =~= map_of(s).insert(x.0@, x.1@));
    }
}

/// Two writes to one key, run one after the other in either order, leave the
/// later value whole under that key, so a read sees exactly one of the two.
pub proof fn lemma_last_write_wins(
    m: Map<Seq<char>, Seq<char>>,
    k: Seq<char>,
    v1: Seq<char>,
    v2: Seq<char>,
)
    ensures
        m.insert(k, v1).insert(k, v2).contains_key(k),
        m.insert(k, v1).insert(k, v2)[k] == v2,
        m.insert(k, v2).insert(k, v1).contains_key(k),
        m.insert(k, v2).insert(k, v1)[k] == v1,
{
}

impl View for Store {
    type V = Map<Seq<char>, Seq<char>>;

    closed spec fn view(&self) -> Map<Seq<char>, Seq<char>> {
        map_of(self.entries@)
    }
}

impl Store {
    /// An empty store.
    pub fn new() -> (r: Store)
        ensures
            r@ == Map::<Seq<char>, Seq<char>>::empty(),
    {
        Store { entries: Vec::new() }
    }

    /// The value stored under `key`, if any.
    pub fn get(&self, key: &String) -> (r: Option<String>)
        ensures
            match r {
                Some(v) => self@.contains_key(key@) && self@[key@] == v@,
                None => !self@.contains_key(key@),
            },
    {
        let mut j: usize = self.entries.len();
        while j > 0
            invariant
                j <= self.entries@.len(),
                forall|m: int| j <= m < self.entries@.len() ==> (#[trigger] self.entries@[m]).0@ != key@,
            decreases j,
        {
            if self.entries[j - 1].0 == *key {
                proof {
                    lemma_found(self.entries@, j - 1, key@);
                }
                return Some(self.entries[j - 1].1.clone());
            }
            j = j - 1;
        }
        proof {
            lemma_absent(self.entries@, key@);
        }
        None
    }

    /// Stores `value` under `key`, over any value stored there before.
    pub fn insert(&mut self, key: String, value: String)
        ensures
            final(self)@ == old(self)@.insert(key@, value@),
    {
        let mut j: usize = self.entries.len();
        while j > 0
            invariant
                j <= self.entries@.len(),
                self.entries@ == old(self).entries@,
                forall|m: int| j <= m < self.entries@.len() ==> (#[trigger] self.entries@[m]).0@ != key@,
            decreases j,
        {
            if self.entries[j - 1].0 == key {
                proof {
                    lemma_replace(self.entries@, j - 1, (key, value));
                }
                self.entries.set(j - 1, (key, value));
                return;
            }
            j = j - 1;
        }
        let ghost before = self.entries@;
        self.entries.push((key, value));
        assert(self.entries@.drop_last() =~= before);
    }
}

} // verus!
