//! The result of analysing a target, and the part of it that can be persisted.
//!
//! Actions are enough to execute a target. Providers live on a heap that cannot be stored, so
//! what is persisted has the actions without them.
use std::sync::Arc;
use vstd::prelude::*;

verus! {

/// Why providers cannot be read.
#[derive(Debug, PartialEq, Eq)]
pub enum AnalysisError<E> {
    /// The result was stored without them.
    MissingStorage,
    /// They are there, and the lookup in them failed.
    Lookup(E),
}

/// What an analysis recorded: the actions, and the providers if they are there.
#[derive(Debug)]
pub struct RecordedAnalysisValues<A, P> {
    pub actions: Arc<A>,
    pub providers: Option<P>,
}

impl<A, P> RecordedAnalysisValues<A, P> {
    /// The providers.
    pub fn provider_collection<E>(&self) -> (r: Result<&P, AnalysisError<E>>)
        ensures
            r == (match self.providers {
                Some(p) => Ok::<&P, AnalysisError<E>>(&p),
                None => Err(AnalysisError::MissingStorage),
            }),
    {
        match &self.providers {
            Some(p) => Ok(p),
            None => Err(AnalysisError::MissingStorage),
        }
    }

    /// The actions without the providers.
    pub fn actions_only_for_persist(&self) -> (r: RecordedAnalysisValues<A, P>)
        ensures
            r == (RecordedAnalysisValues { actions: self.actions, providers: None::<P> }),
    {
        RecordedAnalysisValues { actions: self.actions.clone(), providers: None }
    }
}

/// The result of analysing a target: what was recorded, what profiling found if it was on,
/// the artifacts that were promised, how much was declared, and the validations of what the
/// target depends on if there are any.
#[derive(Debug)]
pub struct AnalysisResult<A, P, F, M, V> {
    pub analysis_values: Arc<RecordedAnalysisValues<A, P>>,
    pub profile_data: Option<Arc<F>>,
    pub promise_artifact_map: Arc<M>,
    pub num_declared_actions: u64,
    pub num_declared_artifacts: u64,
    pub validations: Option<V>,
}

impl<A, P, F, M, V> AnalysisResult<A, P, F, M, V> {
    /// The part that can be persisted: all but the providers and what goes with them, the
    /// validations and what profiling found.
    pub open spec fn persisted(self) -> AnalysisResult<A, P, F, M, V> {
        AnalysisResult {
            analysis_values: Arc::new(
                RecordedAnalysisValues {
                    actions: self.analysis_values.actions,
                    providers: None::<P>,
                },
            ),
            profile_data: None::<Arc<F>>,
            promise_artifact_map: self.promise_artifact_map,
            num_declared_actions: self.num_declared_actions,
            num_declared_artifacts: self.num_declared_artifacts,
            validations: None::<V>,
        }
    }

    /// A result of the given parts.
    pub fn new(
        analysis_values: RecordedAnalysisValues<A, P>,
        profile_data: Option<Arc<F>>,
        promise_artifact_map: M,
        num_declared_actions: u64,
        num_declared_artifacts: u64,
        validations: Option<V>,
    ) -> (r: AnalysisResult<A, P, F, M, V>)
        ensures
            *r.analysis_values == analysis_values,
            r.profile_data == profile_data,
            *r.promise_artifact_map == promise_artifact_map,
            r.num_declared_actions == num_declared_actions,
            r.num_declared_artifacts == num_declared_artifacts,
            r.validations == validations,
    {
        AnalysisResult {
            analysis_values: Arc::new(analysis_values),
            profile_data,
            promise_artifact_map: Arc::new(promise_artifact_map),
            num_declared_actions,
            num_declared_artifacts,
            validations,
        }
    }

    /// The providers, unless the result was stored without them.
    pub fn providers<E>(&self) -> (r: Result<&P, AnalysisError<E>>)
        ensures
            r == (match self.analysis_values.providers {
                Some(p) => Ok::<&P, AnalysisError<E>>(&p),
                None => Err(AnalysisError::MissingStorage),
            }),
    {
        self.analysis_values.provider_collection()
    }

    /// The part that can be persisted.
    pub fn actions_only_for_persist(&self) -> (r: AnalysisResult<A, P, F, M, V>)
        ensures
            r == self.persisted(),
    {
        AnalysisResult {
            analysis_values: Arc::new(self.analysis_values.actions_only_for_persist()),
            profile_data: None,
            promise_artifact_map: self.promise_artifact_map.clone(),
            num_declared_actions: self.num_declared_actions,
            num_declared_artifacts: self.num_declared_artifacts,
            validations: None,
        }
    }

    /// The artifacts that were promised.
    pub fn promise_artifact_map(&self) -> (r: &Arc<M>)
        ensures
            r == self.promise_artifact_map,
    {
        &self.promise_artifact_map
    }

    /// What a lookup in the providers found, unless they are not there.
    pub fn lookup_inner<T, E>(&self, found: Result<T, E>) -> (r: Result<T, AnalysisError<E>>)
        ensures
            r == (match (self.analysis_values.providers, found) {
                (None, _) => Err::<T, AnalysisError<E>>(AnalysisError::MissingStorage),
                (Some(_), Ok(inner)) => Ok(inner),
                (Some(_), Err(e)) => Err(AnalysisError::Lookup(e)),
            }),
    {
        let providers: Result<&P, AnalysisError<E>> = self.providers();
        match providers {
            Err(e) => Err(e),
            Ok(_) => match found {
                Ok(inner) => Ok(inner),
                Err(e) => Err(AnalysisError::Lookup(e)),
            },
        }
    }

    /// What was recorded.
    pub fn analysis_values(&self) -> (r: &RecordedAnalysisValues<A, P>)
        ensures
            *r == *self.analysis_values,
    {
        &self.analysis_values
    }
}

/// What is persisted keeps the actions, the promised artifacts and the counts, and has no
/// providers, no validations and nothing of profiling; persisting it again changes nothing.
pub proof fn law_persisting_keeps_the_actions<A, P, F, M, V>(result: AnalysisResult<A, P, F, M, V>)
    ensures
        result.persisted().analysis_values.actions == result.analysis_values.actions,
        result.persisted().promise_artifact_map == result.promise_artifact_map,
        result.persisted().num_declared_actions == result.num_declared_actions,
        result.persisted().num_declared_artifacts == result.num_declared_artifacts,
        result.persisted().analysis_values.providers is None,
        result.persisted().validations is None,
        result.persisted().profile_data is None,
        result.persisted().persisted() == result.persisted(),
{
}

} // verus!
