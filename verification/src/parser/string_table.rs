use vstd::prelude::*;

verus! {

/// The interned strings of a snapshot, found by their index.
pub struct StringTable {
    strings: Vec<String>,
}

impl View for StringTable {
    type V = Seq<Seq<char>>;

    closed spec fn view(&self) -> Seq<Seq<char>> {
        Seq::new(self.strings@.len(), |i: int| self.strings@[i]@)
    }
}

impl StringTable {
    /// A table that holds `strings`, each under its position.
    pub fn new(strings: Vec<String>) -> (table: Self)
        ensures
            table@.len() == strings@.len(),
            forall|i: int| 0 <= i < strings@.len() ==> table@[i] == (#[trigger] strings@[i])@,
    {
        Self { strings }
    }

    /// The string under `idx`, where there is one.
    pub fn get(&self, idx: u32) -> (r: Option<&str>)
        ensures
            (idx as int) < self@.len() ==> r is Some && r->0@ == self@[idx as int],
            (idx as int) >= self@.len() ==> r is None,
    {
        if (idx as usize) < self.strings.len() {
            Some(self.strings[idx as usize].as_str())
        } else {
            None
        }
    }

    /// How many strings the table holds.
    pub fn len(&self) -> (n: usize)
        ensures
            n == self@.len(),
    {
        self.strings.len()
    }

    /// Whether the table holds no string at all.
    pub fn is_empty(&self) -> (b: bool)
        ensures
            b == (self@.len() == 0),
    {
        self.strings.len() == 0
    }
}

} // verus!
