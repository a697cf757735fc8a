use stakker::handlers::{add_handler_slot, del_handler_slot, new_handler_slots, WakeSlot};
use stakker::waker::bitmap_size_exec;

#[test]
fn first_bits_of_bitmaps_hold_the_drop_handler() {
    let size = bitmap_size_exec();
    let mut s = new_handler_slots();
    // Key 0 is the first bit of the first bitmap: the drop handler takes it
    assert_eq!(add_handler_slot(&mut s, 100), Some(1));
    assert_eq!(s.get(0), Some(&WakeSlot::DropHandler));
    assert_eq!(s.get(1), Some(&WakeSlot::Handler(100)));
    assert_eq!(add_handler_slot(&mut s, 101), Some(2));
    for h in 3..size {
        assert_eq!(add_handler_slot(&mut s, h as u64 + 100), Some(h));
    }
    // The next key starts the second bitmap
    assert_eq!(add_handler_slot(&mut s, 7), Some(size + 1));
    assert_eq!(s.get(size as usize), Some(&WakeSlot::DropHandler));
    assert_eq!(s.get(size as usize + 1), Some(&WakeSlot::Handler(7)));
}

#[test]
fn deleted_slots_are_reused_and_drop_slots_kept() {
    let mut s = new_handler_slots();
    assert_eq!(add_handler_slot(&mut s, 10), Some(1));
    assert_eq!(add_handler_slot(&mut s, 11), Some(2));
    assert_eq!(add_handler_slot(&mut s, 12), Some(3));
    assert_eq!(del_handler_slot(&mut s, 2), Some(11));
    assert_eq!(del_handler_slot(&mut s, 2), None);
    // The drop handler's slot is never freed
    assert_eq!(del_handler_slot(&mut s, 0), None);
    assert_eq!(s.get(0), Some(&WakeSlot::DropHandler));
    assert_eq!(add_handler_slot(&mut s, 13), Some(2));
    assert_eq!(s.get(2), Some(&WakeSlot::Handler(13)));
    assert_eq!(add_handler_slot(&mut s, 14), Some(4));
}
