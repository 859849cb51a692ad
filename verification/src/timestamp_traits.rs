use vstd::prelude::*;
use std::cmp::Ordering;
use vstd::std_specs::cmp::PartialEqSpec;
use vstd::std_specs::cmp::PartialEqSpecImpl;
use vstd::std_specs::cmp::PartialOrdSpecImpl;
use vstd::std_specs::convert::FromSpecImpl;

use crate::clock::earlier;
use crate::model::{DataTimestamp, Timestamp};

verus! {

impl PartialEq for Timestamp {
    fn eq(&self, other: &Self) -> (res: bool) {
        self.start.secs == other.start.secs && self.start.nanos == other.start.nanos
    }
}

impl PartialEqSpecImpl for Timestamp {
    open spec fn obeys_eq_spec() -> bool {
        true
    }

    open spec fn eq_spec(&self, other: &Self) -> bool {
        self.start == other.start
    }
}

impl Eq for Timestamp {
}

/// The order of two timestamps: that of their starts.
pub open spec fn timestamp_order(a: Timestamp, b: Timestamp) -> Ordering {
    if earlier(a.start, b.start) {
        Ordering::Less
    } else if a.start == b.start {
        Ordering::Equal
    } else {
        Ordering::Greater
    }
}

/// Two timestamps are equal exactly when neither comes before the other.
pub proof fn lemma_timestamp_equality_is_order(a: Timestamp, b: Timestamp)
    ensures
        PartialEqSpec::eq_spec(&a, &b) <==> timestamp_order(a, b) == Ordering::Equal,
        timestamp_order(a, b) == Ordering::Less <==> timestamp_order(b, a) == Ordering::Greater,
{
}

impl PartialOrd for Timestamp {
    fn partial_cmp(&self, other: &Self) -> (res: Option<Ordering>) {
        if self.start.is_earlier(&other.start) {
            Some(Ordering::Less)
        } else if self.start.secs == other.start.secs && self.start.nanos == other.start.nanos {
            Some(Ordering::Equal)
        } else {
            Some(Ordering::Greater)
        }
    }
}

impl PartialOrdSpecImpl for Timestamp {
    open spec fn obeys_partial_cmp_spec() -> bool {
        true
    }

    open spec fn partial_cmp_spec(&self, other: &Self) -> Option<Ordering> {
        Some(timestamp_order(*self, *other))
    }
}

impl From<DataTimestamp> for Timestamp {
    fn from(data_timestamp: DataTimestamp) -> (res: Self) {
        data_timestamp.timestamp
    }
}

impl FromSpecImpl<DataTimestamp> for Timestamp {
    open spec fn obeys_from_spec() -> bool {
        true
    }

    open spec fn from_spec(v: DataTimestamp) -> Self {
        v.timestamp
    }
}

} // verus!
