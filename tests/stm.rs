use tl2_stm::{
    valid_stripe_addr, Memory, ReadTrans, STMResult, WriteTrans, LOCK_BIT, MEM_SIZE, NUM_STRIPES,
    STM, STRIPE_SIZE,
};

fn read_stripe(stm: &STM, addr: usize) -> Option<[u8; STRIPE_SIZE]> {
    stm.read_transaction(|t: &mut ReadTrans<'_>| match t.load(addr) {
        Some(v) => STMResult::Done(v),
        None => STMResult::Retry,
    })
}

fn no_lock_set(stm: &STM) -> bool {
    (0..NUM_STRIPES).all(|s| stm.lock_word(s * STRIPE_SIZE) & LOCK_BIT == 0)
}

#[test]
fn single_thread_echo() {
    let mut stm = STM::new();
    let r = stm.write_transaction(|t: &mut WriteTrans<'_>| {
        t.store(0, [1; 8]);
        STMResult::Done(())
    });
    assert_eq!(r, Some(()));
    assert_eq!(read_stripe(&stm, 0), Some([1; 8]));
    assert_eq!(stm.global_clock(), 1);
}

#[test]
fn read_your_own_writes() {
    let mut stm = STM::new();
    let r = stm.write_transaction(|t: &mut WriteTrans<'_>| {
        let first = t.load(0);
        t.store(0, [9; 8]);
        let second = t.load(0);
        STMResult::Done((first, second))
    });
    assert_eq!(r, Some((Some([0; 8]), Some([9; 8]))));
    assert_eq!(read_stripe(&stm, 0), Some([9; 8]));
}

#[test]
fn later_store_supersedes_earlier() {
    let mut stm = STM::new();
    let r = stm.write_transaction(|t: &mut WriteTrans<'_>| {
        t.store(16, [2; 8]);
        t.store(16, [3; 8]);
        STMResult::Done(t.load(16))
    });
    assert_eq!(r, Some(Some([3; 8])));
    assert_eq!(read_stripe(&stm, 16), Some([3; 8]));
    assert_eq!(read_stripe(&stm, 8), Some([0; 8]));
    assert_eq!(read_stripe(&stm, 24), Some([0; 8]));
}

#[test]
fn aborted_writer_leaves_no_lock() {
    let mut stm = STM::new();
    let r: Option<()> = stm.write_transaction(|t: &mut WriteTrans<'_>| {
        t.store(0, [5; 8]);
        t.store(8, [6; 8]);
        STMResult::Abort
    });
    assert_eq!(r, None);
    assert!(no_lock_set(&stm));
    assert_eq!(stm.global_clock(), 0);
    assert_eq!(read_stripe(&stm, 0), Some([0; 8]));
    assert_eq!(read_stripe(&stm, 8), Some([0; 8]));
}

#[test]
fn committed_writer_leaves_no_lock() {
    let mut stm = STM::new();
    let r = stm.write_transaction(|t: &mut WriteTrans<'_>| {
        t.store(0, [5; 8]);
        t.store(504, [6; 8]);
        STMResult::Done(())
    });
    assert_eq!(r, Some(()));
    assert!(no_lock_set(&stm));
    assert_eq!(stm.lock_word(0), 1);
    assert_eq!(stm.lock_word(504), 1);
    assert_eq!(stm.lock_word(8), 0);
}

#[test]
fn retry_without_conflict_gives_none() {
    let mut stm = STM::new();
    let w: Option<u8> = stm.write_transaction(|t: &mut WriteTrans<'_>| {
        t.store(0, [7; 8]);
        STMResult::Retry
    });
    assert_eq!(w, None);
    let r: Option<u8> = stm.read_transaction(|_t: &mut ReadTrans<'_>| STMResult::Retry);
    assert_eq!(r, None);
    let a: Option<u8> = stm.read_transaction(|_t: &mut ReadTrans<'_>| STMResult::Abort);
    assert_eq!(a, None);
    assert_eq!(stm.global_clock(), 0);
    assert_eq!(read_stripe(&stm, 0), Some([0; 8]));
}

#[test]
fn misaligned_access_is_rejected() {
    assert!(!valid_stripe_addr(3));
    assert!(!valid_stripe_addr(MEM_SIZE));
    assert!(!valid_stripe_addr(MEM_SIZE + 8));
    assert!(valid_stripe_addr(0));
    assert!(valid_stripe_addr(MEM_SIZE - STRIPE_SIZE));
    let mut stm = STM::new();
    let r = stm.write_transaction(|t: &mut WriteTrans<'_>| {
        t.store(8, [4; 8]);
        STMResult::Done(())
    });
    assert_eq!(r, Some(()));
    assert_eq!(read_stripe(&stm, 8), Some([4; 8]));
}

#[test]
fn clock_advances_once_per_commit() {
    let mut stm = STM::new();
    for i in 1..=5u64 {
        let r = stm.write_transaction(|t: &mut WriteTrans<'_>| {
            t.store(32, [i as u8; 8]);
            STMResult::Done(())
        });
        assert_eq!(r, Some(()));
        assert_eq!(stm.global_clock(), i);
        assert_eq!(stm.lock_word(32), i);
    }
    let _ = read_stripe(&stm, 32);
    let _ = read_stripe(&stm, 40);
    assert_eq!(stm.global_clock(), 5);
    let r: Option<()> = stm.write_transaction(|_t: &mut WriteTrans<'_>| STMResult::Abort);
    assert_eq!(r, None);
    assert_eq!(stm.global_clock(), 5);
}

#[test]
fn versions_never_decrease() {
    let mut stm = STM::new();
    let mut seen = [0u64; 4];
    for round in 0..12usize {
        let addr = (round % 3) * STRIPE_SIZE;
        let r = stm.write_transaction(|t: &mut WriteTrans<'_>| {
            t.store(addr, [round as u8; 8]);
            STMResult::Done(())
        });
        assert_eq!(r, Some(()));
        for s in 0..4usize {
            let v = stm.lock_word(s * STRIPE_SIZE) & !LOCK_BIT;
            assert!(v >= seen[s]);
            seen[s] = v;
        }
    }
    assert_eq!(seen, [10, 11, 12, 0]);
}

#[test]
fn dining_philosophers_even_count() {
    let n = 8usize;
    let mut stm = STM::new();
    let mut holding = vec![false; n];
    for step in 0..2000usize {
        let p = (step * 5 + step / 8) % n;
        let left = 8 * p;
        let right = 8 * ((p + 1) % n);
        if holding[p] {
            let r = stm.write_transaction(|t: &mut WriteTrans<'_>| {
                let mut l = match t.load(left) {
                    Some(v) => v,
                    None => return STMResult::Retry,
                };
                let mut r = match t.load(right) {
                    Some(v) => v,
                    None => return STMResult::Retry,
                };
                l[0] = 0;
                r[0] = 0;
                t.store(left, l);
                t.store(right, r);
                STMResult::Done(())
            });
            assert_eq!(r, Some(()));
            holding[p] = false;
        } else {
            let got = stm.write_transaction(|t: &mut WriteTrans<'_>| {
                let mut l = match t.load(left) {
                    Some(v) => v,
                    None => return STMResult::Retry,
                };
                let mut r = match t.load(right) {
                    Some(v) => v,
                    None => return STMResult::Retry,
                };
                if l[0] == 0 && r[0] == 0 {
                    l[0] = 1;
                    r[0] = 1;
                    t.store(left, l);
                    t.store(right, r);
                    STMResult::Done(true)
                } else {
                    STMResult::Done(false)
                }
            });
            holding[p] = got.unwrap();
        }
        let count = stm.read_transaction(|t: &mut ReadTrans<'_>| {
            let mut c = 0usize;
            for i in 0..n {
                match t.load(8 * i) {
                    Some(v) => c += v[0] as usize,
                    None => return STMResult::Retry,
                }
            }
            STMResult::Done(c)
        });
        let count = count.unwrap();
        assert_eq!(count % 2, 0);
        assert_eq!(count, 2 * holding.iter().filter(|h| **h).count());
    }
}

#[test]
fn overlapping_writers_both_progress() {
    let mut stm = STM::new();
    for round in 0..50u8 {
        let a = stm.write_transaction(|t: &mut WriteTrans<'_>| {
            let mut x = match t.load(0) {
                Some(v) => v,
                None => return STMResult::Retry,
            };
            x[0] = x[0].wrapping_add(1);
            t.store(0, x);
            t.store(8, [round; 8]);
            STMResult::Done(x[0])
        });
        let b = stm.write_transaction(|t: &mut WriteTrans<'_>| {
            let mut x = match t.load(0) {
                Some(v) => v,
                None => return STMResult::Retry,
            };
            x[1] = x[1].wrapping_add(1);
            t.store(0, x);
            t.store(16, [round; 8]);
            STMResult::Done(x[1])
        });
        assert_eq!(a, Some(round + 1));
        assert_eq!(b, Some(round + 1));
    }
    let v = read_stripe(&stm, 0).unwrap();
    assert_eq!((v[0], v[1]), (50, 50));
    assert_eq!(stm.global_clock(), 100);
    assert!(no_lock_set(&stm));
}

#[test]
fn read_transaction_sees_committed_stripes() {
    let mut stm = STM::new();
    let r = stm.write_transaction(|t: &mut WriteTrans<'_>| {
        t.store(40, [1, 2, 3, 4, 5, 6, 7, 8]);
        t.store(48, [8, 7, 6, 5, 4, 3, 2, 1]);
        STMResult::Done(())
    });
    assert_eq!(r, Some(()));
    let both = stm.read_transaction(|t: &mut ReadTrans<'_>| {
        let a = match t.load(40) {
            Some(v) => v,
            None => return STMResult::Retry,
        };
        let b = match t.load(48) {
            Some(v) => v,
            None => return STMResult::Retry,
        };
        STMResult::Done((a, b))
    });
    assert_eq!(both, Some(([1, 2, 3, 4, 5, 6, 7, 8], [8, 7, 6, 5, 4, 3, 2, 1])));
}

#[test]
fn memory_new_builds_engine_state() {
    let _m = Memory::new();
    let stm = STM::new();
    assert_eq!(stm.global_clock(), 0);
    assert!(no_lock_set(&stm));
    for s in 0..NUM_STRIPES {
        assert_eq!(read_stripe(&stm, s * STRIPE_SIZE), Some([0; 8]));
    }
}
