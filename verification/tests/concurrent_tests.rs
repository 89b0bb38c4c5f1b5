//! The store under real concurrency: racing mutations are serialized by
//! the per-table write locks, so records never blend and id allocation
//! never collides.

use std::sync::Arc;

use objstore::store::Store;
use objstore::structs::{Money, ObjectiveRegister, UserRegister};

fn runtime() -> tokio::runtime::Runtime {
    tokio::runtime::Builder::new_multi_thread()
        .worker_threads(4)
        .build()
        .unwrap()
}

#[test]
fn concurrent_balance_writes_settle_on_one_submitted_value() {
    let store = Arc::new(Store::new(None, None));
    store.create_user(UserRegister { name: "Ana".to_string() });
    let vals: Vec<u64> = (1..=16u64).map(|i| i * 100).collect();
    let rt = runtime();
    rt.block_on(async {
        let mut handles = Vec::new();
        for v in vals.clone() {
            let s = store.clone();
            handles.push(tokio::spawn(async move {
                s.set_money(Money { user_id: 0, money: v });
            }));
        }
        for h in handles {
            h.await.unwrap();
        }
    });
    // exactly one of the submitted values, never a blend, name intact
    let text = store.save_users();
    let expected: Vec<String> = vals
        .iter()
        .map(|v| format!("0\u{b7}Ana\u{b7}{v}\n"))
        .collect();
    assert!(expected.contains(&text));
}

#[test]
fn concurrent_creates_return_distinct_dense_ids() {
    let store = Arc::new(Store::new(None, None));
    let rt = runtime();
    let mut ids = rt.block_on(async {
        let mut handles = Vec::new();
        for i in 0..12u64 {
            let s = store.clone();
            handles.push(tokio::spawn(async move {
                s.create_user(UserRegister { name: format!("user {i}") })
            }));
        }
        let mut ids = Vec::new();
        for h in handles {
            ids.push(h.await.unwrap());
        }
        ids
    });
    ids.sort();
    assert_eq!(ids, (0..12u64).collect::<Vec<_>>());
}

#[test]
fn concurrent_adds_return_distinct_ids() {
    let store = Arc::new(Store::new(None, None));
    store.create_user(UserRegister { name: "Ana".to_string() });
    let rt = runtime();
    let mut ids = rt.block_on(async {
        let mut handles = Vec::new();
        for i in 0..12u64 {
            let s = store.clone();
            handles.push(tokio::spawn(async move {
                s.add_objective(ObjectiveRegister {
                    user_id: 0,
                    name: format!("goal {i}"),
                    desc: String::new(),
                    cost: i,
                })
                .unwrap()
            }));
        }
        let mut ids = Vec::new();
        for h in handles {
            ids.push(h.await.unwrap());
        }
        ids
    });
    ids.sort();
    assert_eq!(ids, (1..=12u64).collect::<Vec<_>>());
}
