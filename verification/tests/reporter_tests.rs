use lru_cache::filter::FilterPolicy;
use lru_cache::reporter::Error;
use lru_cache::reporter::LogReporter;
use lru_cache::reporter::Reporter;

#[test]
fn test_reporter_starts_ok() {
    let reporter = LogReporter::new();
    assert!(reporter.result().is_ok());
}

#[test]
fn test_reporter_records_corruption() {
    let mut reporter = LogReporter::new();
    reporter.corruption(12, "bad record");
    match reporter.result() {
        Ok(()) => panic!("corruption was reported, result must be an error"),
        Err(Error::Corruption(reason)) => assert_eq!("bad record", reason),
    }
}

#[test]
fn test_reporter_keeps_latest_reason() {
    let mut reporter = LogReporter::new();
    reporter.corruption(1, "first");
    reporter.corruption(2, "second");
    match reporter.result() {
        Ok(()) => panic!("corruption was reported, result must be an error"),
        Err(Error::Corruption(reason)) => assert_eq!("second", reason),
    }
}

struct EveryKeyPolicy;

impl FilterPolicy for EveryKeyPolicy {
    fn name(&self) -> &str {
        "every-key"
    }

    fn may_contain(&self, filter: &[u8], key: &[u8]) -> bool {
        !filter.is_empty() && !key.is_empty()
    }

    fn create_filter(&self, keys: &[Vec<u8>]) -> Vec<u8> {
        vec![keys.len() as u8]
    }
}

#[test]
fn test_filter_policy_usable() {
    let policy = EveryKeyPolicy;
    assert_eq!("every-key", policy.name());
    let filter = policy.create_filter(&[vec![1, 2], vec![3]]);
    assert_eq!(vec![2u8], filter);
    assert!(policy.may_contain(&filter, &[1, 2]));
    assert!(!policy.may_contain(&filter, &[]));
}
