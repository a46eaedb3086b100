//! The delegation table carried by dispatch requests.
use vstd::prelude::*;

verus! {

/// Single entry of a [`Dtab`]: a rule that rewrites `key` into `val`.
#[derive(Clone, PartialEq, Eq, Debug)]
pub struct Dentry {
    pub key: String,
    pub val: String,
}

/// A delegation table: rules that the server evaluates from top to bottom.
#[derive(Clone, PartialEq, Eq, Debug)]
pub struct Dtab {
    pub entries: Vec<Dentry>,
}

/// The characters of a [`Dentry`]'s key and value.
pub struct DentryView {
    pub key: Seq<char>,
    pub val: Seq<char>,
}

impl View for Dentry {
    type V = DentryView;

    open spec fn view(&self) -> DentryView {
        DentryView { key: self.key@, val: self.val@ }
    }
}

impl View for Dtab {
    type V = Seq<DentryView>;

    open spec fn view(&self) -> Seq<DentryView> {
        self.entries@.map_values(|e: Dentry| e@)
    }
}

impl Dentry {
    /// Create a new `Dentry` from the key-value pair.
    pub fn new(key: String, val: String) -> (r: Dentry)
        ensures
            r@ == (DentryView { key: key@, val: val@ }),
    {
        Dentry { key, val }
    }
}

impl Dtab {
    /// Create a new, empty `Dtab`.
    pub fn new() -> (r: Dtab)
        ensures
            r@ == Seq::<DentryView>::empty(),
    {
        Dtab::from_entries(Vec::new())
    }

    /// Create a new `Dtab` holding the given entries, in order.
    pub fn from_entries(entries: Vec<Dentry>) -> (r: Dtab)
        ensures
            r@ == entries@.map_values(|e: Dentry| e@),
    {
        Dtab { entries }
    }

    /// Add an entry at the bottom of this `Dtab`.
    pub fn add_entry(&mut self, key: String, value: String) -> (r: &Self)
        ensures
            final(self)@ == old(self)@.push(DentryView { key: key@, val: value@ }),
            r@ == final(self)@,
    {
        let ghost prev = self.entries@;
        self.entries.push(Dentry::new(key, value));
        assert(self.entries@.map_values(|e: Dentry| e@) =~= prev.map_values(|e: Dentry| e@).push(
            DentryView { key: key@, val: value@ },
        ));
        self
    }
}

} // verus!
