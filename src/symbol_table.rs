//! The table from names to values that code generation threads through
//! lowering, and the names under which each buffer's facts are entered.

use vstd::prelude::*;

verus! {

/// The map that a list of `(name, value)` entries stands for: a later
/// entry for a name replaces an earlier one.
pub open spec fn entries_map<V>(entries: Seq<(String, V)>) -> Map<Seq<char>, V>
    decreases entries.len(),
{
    if entries.len() == 0 {
        Map::empty()
    } else {
        entries_map(entries.drop_last()).insert(entries.last().0@, entries.last().1)
    }
}

proof fn lemma_entries_map_last<V>(entries: Seq<(String, V)>, i: int, k: Seq<char>)
    requires
        0 <= i < entries.len(),
        entries[i].0@ == k,
        forall|j: int| i < j < entries.len() ==> entries[j].0@ != k,
    ensures
        entries_map(entries).contains_key(k),
        entries_map(entries)[k] == entries[i].1,
    decreases entries.len(),
{
    if i < entries.len() - 1 {
        lemma_entries_map_last(entries.drop_last(), i, k);
    }
}

proof fn lemma_entries_map_absent<V>(entries: Seq<(String, V)>, k: Seq<char>)
    requires
        forall|j: int| 0 <= j < entries.len() ==> entries[j].0@ != k,
    ensures
        !entries_map(entries).contains_key(k),
    decreases entries.len(),
{
    if entries.len() > 0 {
        lemma_entries_map_absent(entries.drop_last(), k);
    }
}

fn same_name(a: &String, b: &str) -> (r: bool)
    ensures
        r == (a@ == b@),
{
    *a == b.to_string()
}

/// Maps names of symbols to values.
#[derive(Debug)]
pub struct SymbolTable<V> {
    entries: Vec<(String, V)>,
}

impl<V: Copy> View for SymbolTable<V> {
    type V = Map<Seq<char>, V>;

    closed spec fn view(&self) -> Map<Seq<char>, V> {
        entries_map(self.entries@)
    }
}

impl<V: Copy> SymbolTable<V> {
    pub fn new() -> (r: SymbolTable<V>)
        ensures
            r@ == Map::<Seq<char>, V>::empty(),
    {
        SymbolTable { entries: Vec::new() }
    }

    /// Sets the value of `name`, replacing any earlier value.
    pub fn add(&mut self, name: &str, value: V)
        ensures
            final(self)@ == old(self)@.insert(name@, value),
    {
        let ghost before = self.entries@;
        self.entries.push((name.to_string(), value));
        assert(self.entries@.drop_last() =~= before);
    }

    /// Removes `name`, which must be present.
    pub fn remove(&mut self, name: &str)
        requires
            old(self)@.contains_key(name@),
        ensures
            final(self)@ == old(self)@.remove(name@),
    {
        let ghost old_entries = self.entries@;
        let mut kept: Vec<(String, V)> = Vec::new();
        let mut i: usize = 0;
        while i < self.entries.len()
            invariant
                self.entries@ == old_entries,
                i <= old_entries.len(),
                entries_map(kept@) == entries_map(old_entries.take(i as int)).remove(name@),
            decreases old_entries.len() - i,
        {
            assert(old_entries.take(i + 1).drop_last() =~= old_entries.take(i as int));
            if !same_name(&self.entries[i].0, name) {
                let ghost before = kept@;
                kept.push((self.entries[i].0.clone(), self.entries[i].1));
                assert(kept@.drop_last() =~= before);
                assert(entries_map(kept@) =~= entries_map(old_entries.take(i + 1)).remove(name@));
            } else {
                assert(entries_map(kept@) =~= entries_map(old_entries.take(i + 1)).remove(name@));
            }
            i = i + 1;
        }
        assert(old_entries.take(i as int) =~= old_entries);
        self.entries = kept;
    }

    /// Whether `name` has a value.
    pub fn contains(&self, name: &str) -> (r: bool)
        ensures
            r == self@.contains_key(name@),
    {
        let mut i = self.entries.len();
        while i > 0
            invariant
                i <= self.entries@.len(),
                forall|j: int| i <= j < self.entries@.len() ==> self.entries@[j].0@ != name@,
            decreases i,
        {
            i = i - 1;
            if same_name(&self.entries[i].0, name) {
                proof {
                    lemma_entries_map_last(self.entries@, i as int, name@);
                }
                return true;
            }
        }
        proof {
            lemma_entries_map_absent(self.entries@, name@);
        }
        false
    }

    /// The value of `name`, which must be present.
    pub fn get(&self, name: &str) -> (r: V)
        requires
            self@.contains_key(name@),
        ensures
            r == self@[name@],
    {
        let mut i = self.entries.len();
        while i > 0
            invariant
                i <= self.entries@.len(),
                forall|j: int| i <= j < self.entries@.len() ==> self.entries@[j].0@ != name@,
            decreases i,
        {
            i = i - 1;
            if same_name(&self.entries[i].0, name) {
                proof {
                    lemma_entries_map_last(self.entries@, i as int, name@);
                }
                return self.entries[i].1;
            }
        }
        proof {
            lemma_entries_map_absent(self.entries@, name@);
        }
        self.entries[0].1
    }
}

/// `name` followed by `suffix`.
fn suffixed(name: &str, suffix: &str) -> (r: String)
    ensures
        r@ == name@ + suffix@,
{
    let mut r = name.to_string();
    r.append(suffix);
    r
}

/// Name of the global variable used to store the given buffer name.
pub fn global_buffer_string_name(name: &str) -> (r: String)
    ensures
        r@ == name@ + seq!['_', 'n', 'a', 'm', 'e'],
{
    proof {
        reveal_strlit("_name");
    }
    suffixed(name, "_name")
}

/// Name of the symbol used to store the width of a given buffer.
pub fn width_symbol_name(name: &str) -> (r: String)
    ensures
        r@ == name@ + seq!['_', 'w', 'i', 'd', 't', 'h'],
{
    proof {
        reveal_strlit("_width");
    }
    suffixed(name, "_width")
}

/// Name of the symbol used to store the height of a given buffer.
pub fn height_symbol_name(name: &str) -> (r: String)
    ensures
        r@ == name@ + seq!['_', 'h', 'e', 'i', 'g', 'h', 't'],
{
    proof {
        reveal_strlit("_height");
    }
    suffixed(name, "_height")
}

} // verus!
