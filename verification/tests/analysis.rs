use std::collections::BTreeMap;
use std::sync::Arc;

use dice_state::analysis::{AnalysisError, AnalysisResult, RecordedAnalysisValues};

type Values = RecordedAnalysisValues<String, BTreeMap<String, u32>>;
type TestResult =
    AnalysisResult<String, BTreeMap<String, u32>, String, BTreeMap<u32, String>, Vec<String>>;

fn values(key: &str, providers: Option<BTreeMap<String, u32>>) -> Values {
    RecordedAnalysisValues { actions: Arc::new(key.to_owned()), providers }
}

#[test]
fn actions_only_analysis_round_trips() {
    let res: TestResult =
        AnalysisResult::new(values("cell//pkg:target", None), None, BTreeMap::new(), 3, 4, None);
    let stripped = res.actions_only_for_persist();

    assert_eq!(stripped.num_declared_actions, 3);
    assert_eq!(stripped.num_declared_artifacts, 4);
    assert!(stripped.providers::<()>().is_err(), "storage-less: clean error");
}

#[test]
fn stripping_drops_what_lives_on_the_heap() {
    let providers: BTreeMap<String, u32> = [("default".to_owned(), 1)].into_iter().collect();
    let promises: BTreeMap<u32, String> = [(7, "artifact".to_owned())].into_iter().collect();
    let res: TestResult = AnalysisResult::new(
        values("t", Some(providers)),
        Some(Arc::new("profile".to_owned())),
        promises,
        3,
        4,
        Some(vec!["validation".to_owned()]),
    );
    assert_eq!(res.providers::<()>().unwrap()["default"], 1);
    assert_eq!(res.lookup_inner::<u32, ()>(Ok(5)), Ok(5));
    assert_eq!(res.lookup_inner::<u32, i32>(Err(-1)), Err(AnalysisError::Lookup(-1)));

    let stripped = res.actions_only_for_persist();
    assert!(Arc::ptr_eq(res.promise_artifact_map(), stripped.promise_artifact_map()));
    assert_eq!(*stripped.analysis_values().actions, "t");
    assert!(stripped.profile_data.is_none());
    assert!(stripped.validations.is_none());
    assert_eq!(stripped.providers::<()>(), Err(AnalysisError::MissingStorage));
    assert_eq!(stripped.lookup_inner::<u32, i32>(Ok(5)), Err(AnalysisError::MissingStorage));
}
