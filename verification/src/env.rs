//! A caller-supplied table of environment variables.

use vstd::prelude::*;

verus! {

/// The outcome of looking up a variable: present with a textual value,
/// present but not decodable as text, or absent.
#[derive(Debug, PartialEq, Eq)]
pub enum Lookup {
    /// The variable is set and its value is text.
    Text(Vec<u8>),
    /// The variable is set but its value cannot be decoded as text.
    Undecodable,
    /// The variable is not set.
    Unset,
}

/// The value stored for one table entry, as the contracts see it:
/// `Some(text)` for a decodable value, `None` for one that is present but
/// not decodable.
pub open spec fn entry_value(v: Option<Vec<u8>>) -> Option<Seq<u8>> {
    match v {
        Some(t) => Some(t@),
        None => None,
    }
}

/// The map described by a list of entries; a later entry for the same name
/// overrides an earlier one.
pub open spec fn env_map(entries: Seq<(Vec<u8>, Option<Vec<u8>>)>) -> Map<
    Seq<u8>,
    Option<Seq<u8>>,
>
    decreases entries.len(),
{
    if entries.len() == 0 {
        Map::empty()
    } else {
        env_map(entries.drop_last()).insert(
            entries.last().0@,
            entry_value(entries.last().1),
        )
    }
}

/// A table of environment variables, supplied by the caller.
///
/// Its view is a map from names to `Some(value)` for a variable with a
/// textual value, or to `None` for one that is present but not decodable
/// as text; a name outside the map's domain is unset.
pub struct Env {
    entries: Vec<(Vec<u8>, Option<Vec<u8>>)>,
}

impl View for Env {
    type V = Map<Seq<u8>, Option<Seq<u8>>>;

    closed spec fn view(&self) -> Map<Seq<u8>, Option<Seq<u8>>> {
        env_map(self.entries@)
    }
}

/// Byte-wise equality of two byte slices.
pub fn bytes_eq(a: &[u8], b: &[u8]) -> (r: bool)
    ensures
        r == (a@ == b@),
{
    if a.len() != b.len() {
        return false;
    }
    let mut j: usize = 0;
    while j < a.len()
        invariant
            j <= a.len(),
            a.len() == b.len(),
            forall|k: int| 0 <= k < j ==> a@[k] == b@[k],
        decreases a.len() - j,
    {
        if a[j] != b[j] {
            return false;
        }
        j = j + 1;
    }
    proof {
        assert(a@ =~= b@);
    }
    true
}

/// A copy of a byte vector.
pub fn clone_bytes(v: &Vec<u8>) -> (r: Vec<u8>)
    ensures
        r@ == v@,
{
    let mut r: Vec<u8> = Vec::new();
    let mut j: usize = 0;
    while j < v.len()
        invariant
            j <= v.len(),
            r@ == v@.subrange(0, j as int),
        decreases v.len() - j,
    {
        r.push(v[j]);
        proof {
            assert(r@ =~= v@.subrange(0, j + 1 as int));
        }
        j = j + 1;
    }
    proof {
        assert(v@.subrange(0, v@.len() as int) =~= v@);
    }
    r
}

/// The value a list of entries gives a key is settled by the entries before
/// position `i` when no entry from `i` on has that key.
proof fn lemma_env_map_no_suffix(
    entries: Seq<(Vec<u8>, Option<Vec<u8>>)>,
    i: int,
    key: Seq<u8>,
)
    requires
        0 <= i <= entries.len(),
        forall|k: int| i <= k < entries.len() ==> entries[k].0@ != key,
    ensures
        env_map(entries).contains_key(key) == env_map(entries.take(i)).contains_key(key),
        env_map(entries).contains_key(key) ==> env_map(entries)[key] == env_map(
            entries.take(i),
        )[key],
    decreases entries.len() - i,
{
    if i == entries.len() {
        assert(entries.take(i) =~= entries);
    } else {
        let shorter = entries.drop_last();
        assert(entries.last().0@ != key);
        lemma_env_map_no_suffix(shorter, i, key);
        assert(shorter.take(i) =~= entries.take(i));
    }
}

impl Env {
    /// An empty table.
    pub fn new() -> (r: Env)
        ensures
            r@ == Map::<Seq<u8>, Option<Seq<u8>>>::empty(),
    {
        Env { entries: Vec::new() }
    }

    /// Sets `name` to the textual value `value`, replacing any earlier
    /// entry for it.
    pub fn set(&mut self, name: Vec<u8>, value: Vec<u8>)
        ensures
            final(self)@ == old(self)@.insert(name@, Some(value@)),
    {
        let ghost before = self.entries@;
        self.entries.push((name, Some(value)));
        proof {
            assert(self.entries@.drop_last() =~= before);
        }
    }

    /// Marks `name` as set to a value that is not decodable as text,
    /// replacing any earlier entry for it.
    pub fn set_undecodable(&mut self, name: Vec<u8>)
        ensures
            final(self)@ == old(self)@.insert(name@, None::<Seq<u8>>),
    {
        let ghost before = self.entries@;
        self.entries.push((name, None));
        proof {
            assert(self.entries@.drop_last() =~= before);
        }
    }

    /// Looks `name` up in the table.
    pub fn lookup(&self, name: &[u8]) -> (r: Lookup)
        ensures
            match r {
                Lookup::Text(v) => self@.contains_key(name@) && self@[name@] == Some(v@),
                Lookup::Undecodable => self@.contains_key(name@) && self@[name@] is None,
                Lookup::Unset => !self@.contains_key(name@),
            },
    {
        let mut i: usize = self.entries.len();
        while i > 0
            invariant
                i <= self.entries.len(),
                forall|k: int| i <= k < self.entries@.len() ==> self.entries@[k].0@ != name@,
            decreases i,
        {
            i = i - 1;
            if bytes_eq(self.entries[i].0.as_slice(), name) {
                proof {
                    lemma_env_map_no_suffix(self.entries@, i + 1, name@);
                    assert(self.entries@.take(i + 1).drop_last() =~= self.entries@.take(
                        i as int,
                    ));
                    assert(self.entries@.take(i + 1).last() == self.entries@[i as int]);
                }
                return match &self.entries[i].1 {
                    Some(v) => Lookup::Text(clone_bytes(v)),
                    None => Lookup::Undecodable,
                };
            }
        }
        proof {
            lemma_env_map_no_suffix(self.entries@, 0, name@);
            assert(self.entries@.take(0) =~= Seq::<(Vec<u8>, Option<Vec<u8>>)>::empty());
        }
        Lookup::Unset
    }
}

} // verus!
