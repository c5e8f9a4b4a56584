use vstd::prelude::*;

verus! {

/// The mathematical value of a stored record: the four fields with
/// strings taken as character sequences.
pub ghost struct RecView {
    pub id: u32,
    pub timestamp: Seq<char>,
    pub message: Seq<char>,
    pub tags: Seq<char>,
}

/// One stored note entry. Fields are immutable once created: records are
/// made only by the add operation (or by loading the backing file) and
/// destroyed only by remove or clear.
#[derive(Debug)]
pub struct Thought {
    pub id: u32,
    pub timestamp: String,
    pub message: String,
    pub tags: String,
}

impl View for Thought {
    type V = RecView;

    open spec fn view(&self) -> RecView {
        RecView {
            id: self.id,
            timestamp: self.timestamp@,
            message: self.message@,
            tags: self.tags@,
        }
    }
}

/// The views of a sequence of records.
pub open spec fn seq_view(s: Seq<Thought>) -> Seq<RecView> {
    s.map_values(|t: Thought| t@)
}

impl Clone for Thought {
    fn clone(&self) -> (r: Self)
        ensures
            r == *self,
    {
        Thought {
            id: self.id,
            timestamp: self.timestamp.clone(),
            message: self.message.clone(),
            tags: self.tags.clone(),
        }
    }
}

impl PartialEq for Thought {
    /// Two records are equal iff all four fields are equal.
    fn eq(&self, other: &Self) -> (r: bool)
    {
        self.id == other.id && self.timestamp.eq(&other.timestamp)
            && self.message.eq(&other.message) && self.tags.eq(&other.tags)
    }
}

impl vstd::std_specs::cmp::PartialEqSpecImpl for Thought {
    open spec fn obeys_eq_spec() -> bool {
        true
    }

    open spec fn eq_spec(&self, other: &Self) -> bool {
        self@ == other@
    }
}

impl Eq for Thought {}

} // verus!
