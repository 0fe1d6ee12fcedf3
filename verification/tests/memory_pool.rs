use rusty_mos::consts::error::KError;
use rusty_mos::memory::shared_pool::MemoryPool;

#[test]
fn test_memory_pool() {
    let mut memory_pool = MemoryPool::new();
    let id = memory_pool.crate_pool(1);
    memory_pool.bind(id, 1).unwrap();
    assert!(memory_pool.insert_page(id - 1, 1).is_err());
    for page in 1..100 {
        memory_pool.insert_page(id, page).unwrap();
    }
    memory_pool.fork_bind(2, 1);
    memory_pool.fork_bind(3, 2);

    memory_pool.destory_env(1);

    memory_pool.insert_page(id, 101).unwrap();
    memory_pool.destory_env(3);
    memory_pool.destory_env(2);

    assert!(memory_pool.insert_page(id, 102).is_err());

    let id = memory_pool.crate_pool(1);
    memory_pool.bind(id, 1).unwrap();
    assert!(memory_pool.bind(id, 1).is_err());

    for page in 1..1000 {
        memory_pool.insert_page(id, page).unwrap();
    }

    memory_pool.destory_env(1);
    assert!(memory_pool.insert_page(id, 10200).is_err());
    assert!(memory_pool.bind(id, 2).is_err());

    let id = memory_pool.crate_pool(1);
    memory_pool.bind(id, 1).unwrap();
    assert!(memory_pool.lock(id, 2).is_err());
    assert!(memory_pool.lock(id, 1).unwrap());
    assert!(!memory_pool.lock(id, 1).unwrap());

    memory_pool.bind(id, 2).unwrap();
    assert!(!memory_pool.lock(id, 2).unwrap());
    memory_pool.unlock(id, 1).unwrap();
    assert!(memory_pool.lock(id, 2).unwrap());

    assert!(!memory_pool.lock(id, 1).unwrap());
    memory_pool.destory_env(2);
    assert!(memory_pool.lock(id, 1).unwrap());
}

#[test]
fn pool_ids_carry_counter_and_env() {
    let mut pool = MemoryPool::new();
    assert_eq!(pool.crate_pool(5), (1 << 11) | 5);
    assert_eq!(pool.crate_pool(1029), (2 << 11) | 5);
}

#[test]
fn bind_hands_back_the_pages() {
    let mut pool = MemoryPool::new();
    let id = pool.crate_pool(1);
    pool.insert_page(id, 7).unwrap();
    pool.insert_page(id, 9).unwrap();
    let pages = pool.bind(id, 3).unwrap().clone();
    assert_eq!(pages, vec![7, 9]);
    assert_eq!(pool.reference_of(id), Some(1));
}

#[test]
fn pool_errors() {
    let mut pool = MemoryPool::new();
    assert!(matches!(pool.bind(77, 1), Err(KError::PoolNotFound)));
    assert!(matches!(pool.insert_page(77, 1), Err(KError::PoolNotFound)));
    let id = pool.crate_pool(1);
    assert!(matches!(pool.lock(id, 1), Err(KError::PoolNotBind)));
    pool.bind(id, 1).unwrap();
    assert!(matches!(pool.bind(id, 1), Err(KError::PoolDoubleBind)));
    assert!(matches!(pool.unlock(id, 1), Err(KError::NoLock)));
    assert!(pool.lock(id, 1).unwrap());
    pool.bind(id, 2).unwrap();
    assert!(matches!(pool.unlock(id, 2), Err(KError::LockByOthers)));
    assert!(pool.unlock(id, 1).is_ok());
}

#[test]
fn lock_then_unlock_frees_the_lock() {
    let mut pool = MemoryPool::new();
    let id = pool.crate_pool(1);
    pool.bind(id, 1).unwrap();
    pool.bind(id, 2).unwrap();
    assert!(pool.lock(id, 1).unwrap());
    assert!(!pool.lock(id, 2).unwrap());
    pool.unlock(id, 1).unwrap();
    assert!(pool.lock(id, 2).unwrap());
}

#[test]
fn last_holder_deletes_pool() {
    let mut pool = MemoryPool::new();
    let id = pool.crate_pool(1);
    pool.bind(id, 4).unwrap();
    assert_eq!(pool.reference_of(id), Some(1));
    pool.destory_env(4);
    assert_eq!(pool.reference_of(id), None);
}

#[test]
fn can_create_while_ids_remain() {
    let pool = MemoryPool::new();
    assert!(pool.can_create());
}

#[test]
fn destroyed_env_is_unbound() {
    let mut pool = MemoryPool::new();
    let id = pool.crate_pool(1);
    pool.bind(id, 1).unwrap();
    pool.bind(id, 2).unwrap();
    assert_eq!(pool.reference_of(id), Some(2));
    pool.destory_env(1);
    assert_eq!(pool.reference_of(id), Some(1));
    assert!(matches!(pool.lock(id, 1), Err(KError::PoolNotBind)));
    assert!(pool.bind(id, 1).is_ok());
    assert_eq!(pool.reference_of(id), Some(2));
}
