use backtrace::{caller_frame, next_step, Frame, WalkStep};
use std::collections::HashMap;

/// Runs a walk as the embedding loop does, over a map of stack words.
fn walk(start: Frame, mem: &HashMap<u64, u64>, answers: &[bool]) -> Vec<u64> {
    let mut seen = Vec::new();
    let mut cur = start;
    loop {
        seen.push(cur.return_address());
        let keep_going = answers[seen.len() - 1];
        match next_step(&cur, keep_going) {
            WalkStep::Finished => break,
            WalkStep::ReadCaller { saved_base_pointer_at, return_address_at } => {
                let bp = *mem.get(&saved_base_pointer_at).unwrap_or(&0);
                let ra = *mem.get(&return_address_at).unwrap_or(&0);
                cur = caller_frame(&cur, bp, ra);
            }
        }
    }
    seen
}

/// A chain of three callers above the start, the last with a zero base pointer.
fn chain() -> (Frame, HashMap<u64, u64>) {
    let mut mem = HashMap::new();
    mem.insert(0x1000, 0x2000);
    mem.insert(0x1008, 0xa1);
    mem.insert(0x2000, 0x3000);
    mem.insert(0x2008, 0xa2);
    mem.insert(0x3000, 0);
    mem.insert(0x3008, 0xa3);
    (Frame::new(0x1000, 0x0ff0, 0xa0), mem)
}

#[test]
fn ip_is_return_address_minus_one() {
    let f = Frame::new(0x1000, 0x0ff0, 0x4000_1234);
    assert_eq!(f.ip(), 0x4000_1233);
    assert_eq!(Frame::new(0, 0, 1).ip(), 0);
}

#[test]
fn symbol_address_is_zero() {
    assert_eq!(Frame::new(0x1000, 0x0ff0, 0x55).symbol_address(), 0);
}

#[test]
fn accessors_give_the_registers() {
    let f = Frame::new(1, 2, 3);
    assert_eq!((f.base_pointer(), f.stack_pointer(), f.return_address()), (1, 2, 3));
}

#[test]
fn zero_base_pointer_ends_the_walk() {
    assert_eq!(next_step(&Frame::new(0, 0x10, 0x20), true), WalkStep::Finished);
}

#[test]
fn a_false_answer_ends_the_walk() {
    assert_eq!(next_step(&Frame::new(0x1000, 0x10, 0x20), false), WalkStep::Finished);
}

#[test]
fn unaddressable_return_slot_ends_the_walk() {
    assert_eq!(next_step(&Frame::new(u64::MAX - 7, 0, 1), true), WalkStep::Finished);
    assert_eq!(
        next_step(&Frame::new(u64::MAX - 8, 0, 1), true),
        WalkStep::ReadCaller { saved_base_pointer_at: u64::MAX - 8, return_address_at: u64::MAX }
    );
}

#[test]
fn caller_is_read_from_the_saved_words() {
    let f = Frame::new(0x1000, 0x0ff0, 0xa0);
    assert_eq!(
        next_step(&f, true),
        WalkStep::ReadCaller { saved_base_pointer_at: 0x1000, return_address_at: 0x1008 }
    );
    let c = caller_frame(&f, 0x2000, 0xa1);
    assert_eq!((c.base_pointer(), c.stack_pointer(), c.return_address()), (0x2000, 0x1000, 0xa1));
    assert_eq!(f.base_pointer(), 0x1000);
}

#[test]
fn whole_chain_is_reported_once_each() {
    let (start, mem) = chain();
    let seen = walk(start, &mem, &[true; 10]);
    assert_eq!(seen, vec![0xa0, 0xa1, 0xa2, 0xa3]);
}

#[test]
fn walk_stops_on_the_first_false() {
    let (start, mem) = chain();
    let seen = walk(start, &mem, &[true, false, true, true]);
    assert_eq!(seen, vec![0xa0, 0xa1]);
    let seen = walk(start, &mem, &[false, true, true, true]);
    assert_eq!(seen.len(), 1);
}
