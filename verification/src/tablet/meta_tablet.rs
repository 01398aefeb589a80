//! The tablet of the cluster's metadata.

use vstd::prelude::*;

use super::data_tablet::TabletRequest;
use super::tablet_inner::TabletInner;
use crate::range::{Bound, Range};
use crate::types::error::InternalError;
use crate::types::{ColoGroupId, TabletId};

verus! {

/// The tablet of the cluster's metadata. It is special in two ways: it is always active and never
/// changes its state, because the metadata that would say so is its own; and it cannot take part
/// in transactions across tablets.
pub struct MetaTablet {
    pub inner: TabletInner,
}

/// Whether the tablet of the metadata takes a request.
pub open spec fn meta_allows(request: TabletRequest) -> bool {
    request.reads() || request is Write || request is Manifest
}

impl MetaTablet {
    /// Whether the tablet owns all of the metadata.
    pub open spec fn whole(self) -> bool {
        &&& self.inner.tablet_id == TabletId::meta()
        &&& self.inner.colo_group_id == ColoGroupId::meta()
        &&& self.inner.range@ == (Range {
            lower: Bound::<Seq<u8>>::BeforeAll,
            upper: Bound::AfterAll,
        })
    }

    pub fn new() -> (r: MetaTablet)
        ensures
            r.whole(),
    {
        let inner = TabletInner::new(TabletId::meta(), ColoGroupId::meta(), Range::all());
        MetaTablet { inner }
    }

    /// Whether the tablet takes a request.
    pub fn check_request(&self, request: TabletRequest) -> (r: Result<(), InternalError>)
        ensures
            r == if meta_allows(request) {
                Ok::<(), InternalError>(())
            } else {
                Err(InternalError::NotAllowed)
            },
    {
        match request {
            TabletRequest::GetMulti
            | TabletRequest::GetLatestMulti
            | TabletRequest::LatestSnapshot
            | TabletRequest::ScanPage
            | TabletRequest::HistoryPage
            | TabletRequest::Write
            | TabletRequest::Manifest => Ok(()),
            TabletRequest::Prepare
            | TabletRequest::CleanupCommitted
            | TabletRequest::WaitMostlyHydrated
            | TabletRequest::Catchup
            | TabletRequest::FindSplit
            | TabletRequest::Flush => Err(InternalError::NotAllowed),
        }
    }
}

} // verus!
