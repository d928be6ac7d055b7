//! Labels of vectors.

use vstd::prelude::*;

verus! {

/// The labels of a vector.
#[derive(Debug)]
pub struct LabelSet {
    labels: Vec<i16>,
}

impl View for LabelSet {
    type V = Seq<i16>;

    closed spec fn view(&self) -> Seq<i16> {
        self.labels@
    }
}

impl LabelSet {
    pub fn new(labels: Vec<i16>) -> (r: Self)
        ensures
            r@ == labels@,
    {
        LabelSet { labels }
    }

    pub fn labels(&self) -> (r: &[i16])
        ensures
            r@ == self@,
    {
        self.labels.as_slice()
    }
}

impl Clone for LabelSet {
    fn clone(&self) -> (r: Self)
        ensures
            r@ == self@,
    {
        let labels = self.labels.clone();
        assert(labels@ =~= self.labels@);
        LabelSet { labels }
    }
}

/// What optional labels are.
pub open spec fn labels_view(labels: Option<LabelSet>) -> Option<Seq<i16>> {
    match labels {
        Some(set) => Some(set@),
        None => None,
    }
}

/// A copy of optional labels.
pub fn clone_labels(labels: &Option<LabelSet>) -> (r: Option<LabelSet>)
    ensures
        labels_view(r) == labels_view(*labels),
{
    match labels {
        Some(set) => Some(set.clone()),
        None => None,
    }
}

/// A query: its vector in full, the part of it that the index covers, and its labels.
pub struct LabeledVector<E> {
    pub full: Vec<E>,
    pub indexed: Vec<E>,
    pub labels: Option<LabelSet>,
}

} // verus!
