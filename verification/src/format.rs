//! An output format ready for extraction, and the name-keyed maps that
//! extraction fills.
use vstd::prelude::*;
use crate::config::ECAD;
use crate::text::chars_eq;
use crate::text::chars_of;

verus! {

/// One output format: where the library of an ECAD program goes and how
/// its 3D models are placed.
#[derive(Debug)]
pub struct Format {
    pub name: String,
    pub ecad: ECAD,
    pub output_path: String,
    pub model_output_path: Option<String>,
    pub model_uri: Option<String>,
    pub model_extensions: Vec<String>,
    pub create_folder: bool,
    pub match_path: String,
    pub ignore: Vec<String>,
}

/// The map that a list of (name, value) insertions builds: a later
/// insertion under a name replaces an earlier one.
pub open spec fn entries_map<V: View>(s: Seq<(String, V)>) -> Map<Seq<char>, V::V>
    decreases s.len(),
{
    if s.len() == 0 {
        Map::empty()
    } else {
        entries_map(s.drop_last()).insert(s.last().0@, s.last().1@)
    }
}

/// Values by name, where inserting under a name that is present replaces
/// its value.
#[derive(Debug)]
pub struct NameMap<V> {
    pub entries: Vec<(String, V)>,
}

/// File contents by file name.
pub type Files = NameMap<Vec<u8>>;

/// Model URIs by model file name.
pub type ModelUris = NameMap<String>;

impl<V: View> View for NameMap<V> {
    type V = Map<Seq<char>, V::V>;

    open spec fn view(&self) -> Map<Seq<char>, V::V> {
        entries_map(self.entries@)
    }
}

/// A name absent from the insertions made after position `j` keeps the
/// state it had after the first `j` insertions.
pub proof fn lemma_entries_map_suffix<V: View>(s: Seq<(String, V)>, j: int, k: Seq<char>)
    requires
        0 <= j <= s.len(),
        forall|m: int| j <= m < s.len() ==> (#[trigger] s[m]).0@ != k,
    ensures
        entries_map(s).dom().contains(k) == entries_map(s.take(j)).dom().contains(k),
        entries_map(s).dom().contains(k) ==> entries_map(s)[k] == entries_map(s.take(j))[k],
    decreases s.len() - j,
{
    if j < s.len() {
        assert(s.drop_last().take(j) =~= s.take(j));
        assert forall|m: int| j <= m < s.drop_last().len() implies (#[trigger] s.drop_last()[m]).0@
            != k by {
            assert(s.drop_last()[m] == s[m]);
        }
        lemma_entries_map_suffix(s.drop_last(), j, k);
        assert(s[s.len() - 1].0@ != k);
    } else {
        assert(s.take(j) =~= s);
    }
}

impl<V: View> NameMap<V> {
    /// The empty map.
    pub fn new() -> (r: Self)
        ensures
            r@ == Map::<Seq<char>, V::V>::empty(),
    {
        NameMap { entries: Vec::new() }
    }

    /// Sets the value under `name`, replacing any earlier one.
    pub fn insert(&mut self, name: String, value: V)
        ensures
            final(self)@ == old(self)@.insert(name@, value@),
    {
        let ghost before = self.entries@;
        self.entries.push((name, value));
        assert(self.entries@.drop_last() =~= before);
    }

    /// Whether the map is empty.
    pub fn is_empty(&self) -> (r: bool)
        ensures
            r == (self@.dom() =~= Set::<Seq<char>>::empty()),
    {
        proof {
            if self.entries@.len() > 0 {
                assert(self@.dom().contains(self.entries@.last().0@));
            }
        }
        self.entries.len() == 0
    }

    /// The value under `name`, if any.
    pub fn get(&self, name: &str) -> (r: Option<&V>)
        ensures
            match r {
                Some(v) => self@.dom().contains(name@) && self@[name@] == v@,
                None => !self@.dom().contains(name@),
            },
    {
        let key = chars_of(name);
        let mut j = self.entries.len();
        proof {
            assert(self.entries@.take(j as int) =~= self.entries@);
        }
        while j > 0
            invariant
                j <= self.entries@.len(),
                key@ == name@,
                forall|m: int| j <= m < self.entries@.len() ==> (#[trigger] self.entries@[m]).0@
                    != name@,
            decreases j,
        {
            let k = chars_of(self.entries[j - 1].0.as_str());
            if chars_eq(&k, &key) {
                proof {
                    lemma_entries_map_suffix(self.entries@, j as int, name@);
                    assert(self.entries@.take(j as int).drop_last() =~= self.entries@.take(j - 1));
                    assert(self.entries@.take(j as int).last() == self.entries@[j - 1]);
                }
                return Some(&self.entries[j - 1].1);
            }
            j -= 1;
        }
        proof {
            lemma_entries_map_suffix(self.entries@, 0, name@);
        }
        None
    }
}

} // verus!
