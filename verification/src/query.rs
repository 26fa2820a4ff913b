//! Queries that a pass writes.
use crate::id::QuerySetId;
use crate::raw::{RawCommand, RawEncoder, RawView};
use crate::resource::QuerySet;
use vstd::prelude::*;

verus! {

/// What a query set counts.
#[derive(Clone, Copy, Debug, PartialEq, Eq, Structural)]
pub enum QueryType {
    Occlusion,
    PipelineStatistics,
    Timestamp,
}

/// A query cannot be used as it was asked for.
#[derive(Clone, Copy, Debug, PartialEq, Eq, Structural)]
pub enum QueryUseError {
    OutOfBounds { query_index: u32, query_set_size: u32 },
    IncompatibleType { set_type: QueryType, query_type: QueryType },
    AlreadyStarted { active_query_index: u32, new_query_index: u32 },
    AlreadyStopped,
}

/// A query that was begun and not ended yet.
pub type ActiveQuery = Option<(QuerySetId, u32)>;

impl QuerySet {
    /// What keeps query `query_index` of the set from being used as a query of `query_type`.
    pub open spec fn query_error(self, query_type: QueryType, query_index: u32) -> Option<
        QueryUseError,
    > {
        if self.ty != query_type {
            Some(QueryUseError::IncompatibleType { set_type: self.ty, query_type })
        } else if query_index >= self.count {
            Some(QueryUseError::OutOfBounds { query_index, query_set_size: self.count })
        } else {
            None
        }
    }

    /// Checks that query `query_index` of the set can be used as a query of `query_type`.
    pub fn validate_query(&self, query_type: QueryType, query_index: u32) -> (r: Result<
        (),
        QueryUseError,
    >)
        ensures
            match self.query_error(query_type, query_index) {
                None => r is Ok,
                Some(e) => r == Err::<(), QueryUseError>(e),
            },
    {
        if self.ty != query_type {
            return Err(QueryUseError::IncompatibleType { set_type: self.ty, query_type });
        }
        if query_index >= self.count {
            return Err(QueryUseError::OutOfBounds { query_index, query_set_size: self.count });
        }
        Ok(())
    }

    /// Resets the query and writes a timestamp into it.
    pub fn validate_and_write_timestamp(&self, raw: &mut RawEncoder, query_index: u32) -> (r: Result<
        (),
        QueryUseError,
    >)
        ensures
            match self.query_error(QueryType::Timestamp, query_index) {
                None => r is Ok && final(raw)@ == old(raw)@.push(
                    RawView::ResetQueries {
                        query_set: self.raw,
                        start: query_index,
                        end: (query_index + 1) as u32,
                    },
                ).push(RawView::WriteTimestamp { query_set: self.raw, index: query_index }),
                Some(e) => r == Err::<(), QueryUseError>(e) && final(raw)@ == old(raw)@,
            },
    {
        match self.validate_query(QueryType::Timestamp, query_index) {
            Ok(()) => {},
            Err(e) => {
                return Err(e);
            },
        }
        raw.record(
            RawCommand::ResetQueries {
                query_set: self.raw,
                start: query_index,
                end: query_index + 1,
            },
        );
        raw.record(RawCommand::WriteTimestamp { query_set: self.raw, index: query_index });
        Ok(())
    }

    /// Resets the query and begins it. The query counts as active as soon as it is found to be
    /// usable, even where another one is active and it cannot begin.
    pub fn validate_and_begin_pipeline_statistics_query(
        &self,
        raw: &mut RawEncoder,
        query_index: u32,
        active_query: &mut ActiveQuery,
    ) -> (r: Result<(), QueryUseError>)
        ensures
            match self.query_error(QueryType::PipelineStatistics, query_index) {
                Some(e) => {
                    &&& r == Err::<(), QueryUseError>(e)
                    &&& final(raw)@ == old(raw)@
                    &&& *final(active_query) == *old(active_query)
                },
                None => {
                    &&& *final(active_query) == Some((self.id, query_index))
                    &&& match *old(active_query) {
                        Some((_, active_query_index)) => {
                            &&& r == Err::<(), QueryUseError>(
                                QueryUseError::AlreadyStarted {
                                    active_query_index,
                                    new_query_index: query_index,
                                },
                            )
                            &&& final(raw)@ == old(raw)@
                        },
                        None => {
                            &&& r is Ok
                            &&& final(raw)@ == old(raw)@.push(
                                RawView::ResetQueries {
                                    query_set: self.raw,
                                    start: query_index,
                                    end: (query_index + 1) as u32,
                                },
                            ).push(RawView::BeginQuery { query_set: self.raw, index: query_index })
                        },
                    }
                },
            },
    {
        match self.validate_query(QueryType::PipelineStatistics, query_index) {
            Ok(()) => {},
            Err(e) => {
                return Err(e);
            },
        }
        let before: ActiveQuery = *active_query;
        *active_query = Some((self.id, query_index));
        if let Some((_, active_query_index)) = before {
            return Err(
                QueryUseError::AlreadyStarted {
                    active_query_index,
                    new_query_index: query_index,
                },
            );
        }
        raw.record(
            RawCommand::ResetQueries {
                query_set: self.raw,
                start: query_index,
                end: query_index + 1,
            },
        );
        raw.record(RawCommand::BeginQuery { query_set: self.raw, index: query_index });
        Ok(())
    }
}

} // verus!
