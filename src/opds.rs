//! The OPDS catalog routes.
use vstd::prelude::*;

verus! {

/// Where the OPDS routes are mounted.
pub const OPDS_BASE: &'static str = "/opds/v1.2";

#[derive(Clone, Copy, Debug, PartialEq, Eq, Structural)]
pub enum OpdsRoute {
    /// The root navigation feed.
    Catalog,
    /// The feed of books in progress.
    KeepReading,
}

impl OpdsRoute {
    pub open spec fn spec_path(self) -> Seq<char> {
        match self {
            OpdsRoute::Catalog => "/catalog"@,
            OpdsRoute::KeepReading => "/keep-reading"@,
        }
    }

    /// The route's path below `OPDS_BASE`.
    pub fn path(&self) -> (r: &'static str)
        ensures
            r@ == self.spec_path(),
    {
        match self {
            OpdsRoute::Catalog => "/catalog",
            OpdsRoute::KeepReading => "/keep-reading",
        }
    }
}

/// The routes served under `OPDS_BASE`.
pub fn opds() -> (r: Vec<OpdsRoute>)
    ensures
        r@ == seq![OpdsRoute::Catalog, OpdsRoute::KeepReading],
{
    vec![OpdsRoute::Catalog, OpdsRoute::KeepReading]
}

} // verus!
