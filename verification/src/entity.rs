//! The two shapes an octopus record can take: untagged (fresh from a
//! capture) and tagged (named, terminal).

use vstd::prelude::*;
use crate::feature::{sample_feature, spec_feature, IdentifyingFeature};
use crate::naming::{spec_name, NamingSequencer};

verus! {

/// An octopus that has been captured but not yet named.
#[derive(Clone, Copy, Debug, PartialEq, Eq, Structural)]
pub struct UntaggedOctopus {
    pub identifying_feature: IdentifyingFeature,
}

/// An octopus that has been tagged: it carries a generated name and the
/// feature copied unchanged from its untagged origin.
#[derive(Clone, Debug, PartialEq, Eq)]
pub struct TaggedOctopus {
    pub name: String,
    pub identifying_feature: IdentifyingFeature,
}

impl UntaggedOctopus {
    /// A freshly captured octopus, with a feature drawn uniformly at random.
    pub fn new() -> (o: UntaggedOctopus)
        ensures
            exists|i: int| 0 <= i < 7 && o.identifying_feature == spec_feature(i),
    {
        let identifying_feature = sample_feature();
        UntaggedOctopus { identifying_feature }
    }

    /// An octopus with a caller-chosen feature.
    pub fn with_feature(identifying_feature: IdentifyingFeature) -> (o: UntaggedOctopus)
        ensures
            o.identifying_feature == identifying_feature,
    {
        UntaggedOctopus { identifying_feature }
    }

    /// Build the tagged counterpart of this octopus: draw the next name from
    /// the sequencer and copy the identifying feature unchanged.
    pub fn tag(&self, seq: &mut NamingSequencer) -> (t: TaggedOctopus)
        requires
            old(seq)@ < u64::MAX,
        ensures
            final(seq)@ == old(seq)@ + 1,
            t.name@ == spec_name(old(seq)@ as int),
            t.identifying_feature == self.identifying_feature,
    {
        let name = seq.next_name();
        TaggedOctopus { name, identifying_feature: self.identifying_feature }
    }
}

impl Default for UntaggedOctopus {
    /// A default octopus is a freshly captured one: its feature is drawn at
    /// random.
    fn default() -> (o: Self)
        ensures
            exists|i: int| 0 <= i < 7 && o.identifying_feature == spec_feature(i),
    {
        UntaggedOctopus::new()
    }
}

impl TaggedOctopus {
    /// An exact copy of this record, equal to the original.
    pub fn duplicate(&self) -> (t: TaggedOctopus)
        ensures
            t == *self,
    {
        TaggedOctopus {
            name: self.name.clone(),
            identifying_feature: self.identifying_feature,
        }
    }
}

} // verus!
