use safe_once_map::once::FusedCell;
use safe_once_map::once::InitError;
use safe_once_map::once::OnceCell;

#[test]
fn once_cell_runs_initializer_once() {
    let mut cell: OnceCell<u64> = OnceCell::new();
    let mut runs = 0u32;
    let a = *cell.get_or_init(|| {
        runs += 1;
        41
    });
    let b = *cell.get_or_init(|| {
        runs += 1;
        99
    });
    assert_eq!(a, 41);
    assert_eq!(b, 41);
    assert_eq!(runs, 1);
}

#[test]
fn once_cell_set_rejects_second_write() {
    let mut cell: OnceCell<u64> = OnceCell::new();
    assert!(cell.set(1).is_ok());
    assert_eq!(cell.set(2), Err(2));
    assert_eq!(cell.get(), Some(&1));
}

#[test]
fn once_cell_retry_after_failure() {
    let mut cell: OnceCell<u64> = OnceCell::new();
    let r: Result<&u64, &'static str> = cell.get_or_try_init(|| Err("nope"));
    assert!(r.is_err());
    // the plain cell resets to empty, so a later initializer may succeed
    let r2: Result<&u64, &'static str> = cell.get_or_try_init(|| Ok(7));
    assert_eq!(r2.cloned(), Ok(7));
}

#[test]
fn fused_cell_poisons_permanently() {
    let mut cell: FusedCell<u64> = FusedCell::new();
    let r: Result<&u64, InitError<&'static str>> = cell.get_or_try_init(|| Err("boom"));
    assert!(matches!(r, Err(InitError::Failed("boom"))));
    // a poisoned cell reports poison, and never runs an initializer again
    let r2: Result<&u64, InitError<&'static str>> = cell.get_or_try_init(|| Ok(7));
    assert!(matches!(r2, Err(InitError::Poisoned)));
    assert!(cell.get().is_none());
}

#[test]
fn fused_cell_success_sticks() {
    let mut cell: FusedCell<u64> = FusedCell::new();
    let r: Result<&u64, InitError<&'static str>> = cell.get_or_try_init(|| Ok(5));
    assert_eq!(r.cloned(), Ok(5));
    let r2: Result<&u64, InitError<&'static str>> = cell.get_or_try_init(|| Ok(9));
    assert_eq!(r2.cloned(), Ok(5));
}
