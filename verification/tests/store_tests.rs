use scope::codec::ScopeRecord;
use scope::errors::ScopeError;
use scope::store::{ConflictPolicy, ListFilters, ScopeStore};

fn mem_store(policy: ConflictPolicy) -> ScopeStore {
    ScopeStore::open(":memory:", policy).unwrap()
}

fn no_filters() -> ListFilters {
    ListFilters { names_only: false, comments_only: false, live_only: false }
}

fn find<'a>(records: &'a [ScopeRecord], address: &str) -> Option<&'a ScopeRecord> {
    records.iter().find(|r| r.address == address)
}

#[test]
fn add_then_check_reports_in_scope() {
    let mut store = mem_store(ConflictPolicy::Replace);
    assert_eq!(store.add("1.2.3.4", false), Ok(()));
    assert_eq!(store.check("1.2.3.4"), Ok(true));
    assert_eq!(store.add("::1", false), Ok(()));
    assert_eq!(store.check("::1"), Ok(true));
}

#[test]
fn invalid_add_reports_and_stores_nothing() {
    let mut store = mem_store(ConflictPolicy::Replace);
    assert_eq!(store.add("not-an-ip", false), Err(ScopeError::InvalidAddress));
    assert_eq!(store.add("300.1.2.3,name", true), Err(ScopeError::InvalidAddress));
    let records = store.list(&no_filters()).unwrap();
    assert!(records.is_empty());
}

#[test]
fn merge_replaces_names_comment_and_liveness() {
    let mut store = mem_store(ConflictPolicy::Replace);
    store.add("1.2.3.4,alpha", false).unwrap();
    store.add("1.2.3.4,beta,gamma", true).unwrap();
    let records = store.list(&no_filters()).unwrap();
    assert_eq!(records.len(), 1);
    let rec = &records[0];
    assert_eq!(rec.address, "1.2.3.4");
    assert_eq!(rec.names, vec!["beta".to_string(), "gamma".to_string()]);
    assert!(rec.live);
}

#[test]
fn reject_policy_keeps_first_record() {
    let mut store = mem_store(ConflictPolicy::Reject);
    store.add("1.2.3.4,alpha", false).unwrap();
    assert_eq!(store.add("1.2.3.4,beta", true), Ok(()));
    let records = store.list(&no_filters()).unwrap();
    assert_eq!(records.len(), 1);
    assert_eq!(records[0].names, vec!["alpha".to_string()]);
    assert!(!records[0].live);
}

#[test]
fn filters_are_conjoined() {
    let mut store = mem_store(ConflictPolicy::Replace);
    store.add("1.1.1.1", true).unwrap();
    store.add("2.2.2.2,x", false).unwrap();
    let both = ListFilters { names_only: true, comments_only: false, live_only: true };
    assert!(store.list(&both).unwrap().is_empty());
    let live = ListFilters { names_only: false, comments_only: false, live_only: true };
    let live_records = store.list(&live).unwrap();
    assert_eq!(live_records.len(), 1);
    assert_eq!(live_records[0].address, "1.1.1.1");
    let named = ListFilters { names_only: true, comments_only: false, live_only: false };
    let named_records = store.list(&named).unwrap();
    assert_eq!(named_records.len(), 1);
    assert_eq!(named_records[0].address, "2.2.2.2");
}

#[test]
fn comment_filter_keeps_commented_records() {
    let mut store = mem_store(ConflictPolicy::Replace);
    store.add("5.5.5.5,web#note", false).unwrap();
    store.add("6.6.6.6", false).unwrap();
    let commented = ListFilters { names_only: false, comments_only: true, live_only: false };
    let records = store.list(&commented).unwrap();
    assert_eq!(records.len(), 1);
    assert_eq!(records[0].address, "5.5.5.5");
    assert_eq!(records[0].comment, "note");
}

#[test]
fn check_matches_by_full_equality_only() {
    let mut store = mem_store(ConflictPolicy::Replace);
    store.add("10.0.0.0", false).unwrap();
    assert_eq!(
        store.add("10.0.0.0/24", false),
        Err(ScopeError::InvalidAddress)
    );
    assert_eq!(store.check("10.0.0.1"), Ok(false));
    assert_eq!(store.check("10.0.0.0"), Ok(true));
}

#[test]
fn check_treats_invalid_text_as_out_of_scope() {
    let store = mem_store(ConflictPolicy::Replace);
    assert_eq!(store.check("zzz"), Ok(false));
    assert_eq!(store.check(""), Ok(false));
}

#[test]
fn batch_add_skips_bad_lines_and_keeps_going() {
    let mut store = mem_store(ConflictPolicy::Replace);
    let lines = vec![
        "1.1.1.1".to_string(),
        "bad".to_string(),
        "2.2.2.2,x".to_string(),
        "3.3.3.3,www#c".to_string(),
        "also bad".to_string(),
    ];
    let flags = store.add_lines(&lines, false).unwrap();
    assert_eq!(flags, vec![true, false, true, true, false]);
    assert_eq!(flags.iter().filter(|ok| !*ok).count(), 2);
    let records = store.list(&no_filters()).unwrap();
    assert_eq!(records.len(), 3);
    assert!(find(&records, "1.1.1.1").is_some());
    assert!(find(&records, "2.2.2.2").is_some());
    assert!(find(&records, "3.3.3.3").is_some());
}

#[test]
fn empty_names_are_not_names() {
    let mut store = mem_store(ConflictPolicy::Replace);
    store.add("1.2.3.4,", false).unwrap();
    let named = ListFilters { names_only: true, comments_only: false, live_only: false };
    assert!(store.list(&named).unwrap().is_empty());
}

#[test]
fn remove_is_not_implemented() {
    let mut store = mem_store(ConflictPolicy::Replace);
    store.add("1.2.3.4", false).unwrap();
    assert_eq!(store.remove("1.2.3.4"), Err(ScopeError::NotImplemented));
    assert_eq!(store.check("1.2.3.4"), Ok(true));
}

#[test]
fn open_failure_is_unavailable() {
    let result = ScopeStore::open("/nonexistent-dir/nope/scope.sqlite3", ConflictPolicy::Replace);
    assert!(matches!(result, Err(ScopeError::Unavailable)));
}
