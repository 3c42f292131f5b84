use std::sync::Arc;
use tablestore::Store;
use tokio::sync::RwLock;

/// Two concurrent writers targeting different fields of the same table both
/// succeed, and both effects are visible afterward: no lost update.
#[test]
fn concurrent_writers_to_distinct_fields_both_land() {
    let runtime = tokio::runtime::Runtime::new().unwrap();
    runtime.block_on(async {
        let shared = Arc::new(RwLock::new(Store::new()));
        shared.write().await.create_table("t");

        let left = {
            let shared = Arc::clone(&shared);
            tokio::spawn(async move {
                shared.write().await.write_field("t", "left", &1i64).unwrap();
            })
        };
        let right = {
            let shared = Arc::clone(&shared);
            tokio::spawn(async move {
                shared.write().await.write_field("t", "right", &2i64).unwrap();
            })
        };
        left.await.unwrap();
        right.await.unwrap();

        let guard = shared.read().await;
        assert_eq!(guard.read_field::<i64>("t", "left").unwrap(), 1);
        assert_eq!(guard.read_field::<i64>("t", "right").unwrap(), 2);
    });
}

/// A reader always observes a write entirely or not at all: the writer
/// updates two fields under one exclusive acquisition, and every read
/// acquisition sees them in step.
#[test]
fn readers_never_observe_half_a_write() {
    let runtime = tokio::runtime::Runtime::new().unwrap();
    runtime.block_on(async {
        let shared = Arc::new(RwLock::new(Store::new()));
        {
            let mut guard = shared.write().await;
            guard.create_table("t");
            guard.write_field("t", "a", &0i64).unwrap();
            guard.write_field("t", "b", &0i64).unwrap();
        }

        let writer = {
            let shared = Arc::clone(&shared);
            tokio::spawn(async move {
                for step in 1..=50i64 {
                    let mut guard = shared.write().await;
                    guard.write_field("t", "a", &step).unwrap();
                    guard.write_field("t", "b", &step).unwrap();
                }
            })
        };
        let reader = {
            let shared = Arc::clone(&shared);
            tokio::spawn(async move {
                for _ in 0..50 {
                    let guard = shared.read().await;
                    let a: i64 = guard.read_field("t", "a").unwrap();
                    let b: i64 = guard.read_field("t", "b").unwrap();
                    assert_eq!(a, b);
                }
            })
        };
        writer.await.unwrap();
        reader.await.unwrap();
    });
}

/// Concurrent table creation through the read-then-maybe-write pattern never
/// clears data that another writer already put in the table.
#[test]
fn concurrent_create_table_is_idempotent() {
    let runtime = tokio::runtime::Runtime::new().unwrap();
    runtime.block_on(async {
        let shared = Arc::new(RwLock::new(Store::new()));
        shared.write().await.create_table("t");
        shared.write().await.write_field("t", "k", &3i64).unwrap();

        let creators: Vec<_> = (0..4)
            .map(|_| {
                let shared = Arc::clone(&shared);
                tokio::spawn(async move {
                    // the read-mode existence check is its own acquisition
                    {
                        let guard = shared.read().await;
                        if guard.has_table("t") {
                            return;
                        }
                    }
                    shared.write().await.create_table("t");
                })
            })
            .collect();
        for task in creators {
            task.await.unwrap();
        }
        assert_eq!(shared.read().await.read_field::<i64>("t", "k").unwrap(), 3);
    });
}
