use stakker::queue::{max_cap_exec, push_cost_exec, Callback, FnOnceQueue, HVec};

fn d1(v1: i32) {
    println!("d1: {}", v1);
}
fn d2(v1: i32, v2: i32) {
    println!("d2: {} {}", v1, v2);
}
fn d3(v1: i32, v2: i32, v3: i32) {
    println!("d3: {} {} {}", v1, v2, v3);
}

struct Confirm(u64);
impl Confirm {
    fn push(&mut self, nyb: u64) {
        self.0 = (self.0 << 4) + nyb;
    }
}

fn add_d3(queue: &mut FnOnceQueue<Confirm>, v1: i32, v2: i32, v3: i32) {
    // This closure can't specialise, so has to store the 3 values
    queue.push(move |c: &mut Confirm| {
        c.push(0xD);
        d3(v1, v2, v3);
    });
}

fn round_up(val: usize, pow2: usize) -> usize {
    val.wrapping_add(pow2 - 1) & !(pow2 - 1)
}

struct Align64([u64; 8]);

fn accept_align64(c: &mut Confirm, v: Align64) {
    c.push(0x6);
    assert_eq!(v.0[0], 123456789);
}

fn push_call_to_accept_align64(queue: &mut FnOnceQueue<Confirm>, v: Align64) {
    queue.push(move |c: &mut Confirm| accept_align64(c, v));
}

// 2048 bytes
fn accept_bigarr(c: &mut Confirm, v: [u32; 512]) {
    c.push(0xB);
    assert_eq!(v[0], 123456789);
}

fn push_call_to_accept_bigarr(queue: &mut FnOnceQueue<Confirm>, v: [u32; 512]) {
    queue.push(move |c: &mut Confirm| accept_bigarr(c, v));
}

#[test]
fn check_space_used() {
    let mut confirm = Confirm(0xF);
    let mut queue = FnOnceQueue::<Confirm>::new();
    let i32_unit = std::mem::size_of::<i32>();
    let usize_unit = std::mem::size_of::<usize>();

    // The three values are stored in the closure
    assert_eq!(queue.cap(), 0);
    let u0 = queue.len();
    add_d3(&mut queue, 12345678, 23456781, 34567812);
    assert_eq!(
        queue.len() - u0,
        round_up(usize_unit + 3 * i32_unit, usize_unit)
    );
    assert_eq!(queue.cap(), 1024);

    let u0 = queue.len();
    add_d3(&mut queue, 987654321, 765432198, 543219876);
    assert_eq!(
        queue.len() - u0,
        round_up(usize_unit + 3 * i32_unit, usize_unit)
    );

    // The closures below capture nothing, so only take up a `usize`
    // on the queue
    let u0 = queue.len();
    queue.push(|c: &mut Confirm| {
        c.push(1);
        d1(1);
    });
    assert_eq!(queue.len() - u0, usize_unit);

    let u0 = queue.len();
    queue.push(|c: &mut Confirm| {
        c.push(2);
        d2(2, 3);
    });
    assert_eq!(queue.len() - u0, usize_unit);

    let u0 = queue.len();
    queue.push(|c: &mut Confirm| {
        c.push(3);
        d3(4, 5, 6);
    });
    assert_eq!(queue.len() - u0, usize_unit);

    // Add align64 once to force the alignment to be predictable,
    // then a second time to check the space consumed.  Expect VP
    // (usize) plus padding out to the value's alignment, then the
    // value, then padding out to a usize: 128 for a 64-byte value
    // aligned to 64.
    let align = std::mem::align_of::<Align64>();
    let size = std::mem::size_of::<Align64>();
    push_call_to_accept_align64(&mut queue, Align64([123456789; 8]));
    let u0 = queue.len();
    push_call_to_accept_align64(&mut queue, Align64([123456789; 8]));
    assert_eq!(
        queue.len() - u0,
        round_up(round_up(usize_unit, align) + size, usize_unit)
    );

    // Now add something that will force allocation of a new
    // chunk, and chaining the old chunk.  Expect on the new list:
    // Call to old chunk `(*mut (), FnOnceQueue)`, then call to
    // bigarr `(*mut (), [u32; 512])`.
    assert_eq!(queue.cap(), 1024);
    push_call_to_accept_bigarr(&mut queue, [123456789; 512]);
    assert_eq!(
        queue.len(),
        usize_unit + std::mem::size_of::<FnOnceQueue<()>>() + usize_unit + 2048
    );
    assert_eq!(queue.cap(), 4096);

    // Pushing same value again should cause another allocation
    push_call_to_accept_bigarr(&mut queue, [123456789; 512]);
    assert_eq!(queue.cap(), 8192);

    queue.execute(&mut confirm);

    // Confirm that all the calls ran, in the correct order
    assert_eq!(confirm.0, 0xFDD12366BB);
}

#[test]
fn execute_runs_in_order_and_empties() {
    let mut confirm = Confirm(0);
    let mut queue = FnOnceQueue::<Confirm>::new();
    assert!(queue.is_empty());
    for n in 1..=5u64 {
        queue.push(move |c: &mut Confirm| c.push(n));
    }
    assert!(!queue.is_empty());
    let cap = queue.cap();
    queue.execute(&mut confirm);
    assert_eq!(confirm.0, 0x12345);
    assert!(queue.is_empty());
    assert_eq!(queue.len(), 0);
    assert_eq!(queue.cap(), cap);
}

#[test]
fn push_box_and_callback_keep_order() {
    let mut confirm = Confirm(0);
    let mut queue = FnOnceQueue::<Confirm>::new();
    queue.push_box(Box::new(|c: &mut Confirm| c.push(7)));
    queue.push_callback(Callback(Box::new(|c: &mut Confirm| c.push(8))));
    queue.push(|c: &mut Confirm| c.push(9));
    queue.execute(&mut confirm);
    assert_eq!(confirm.0, 0x789);
}

#[test]
fn first_chunk_and_growth() {
    let mut queue = FnOnceQueue::<Confirm>::new();
    assert_eq!(queue.cap(), 0);
    queue.push(|c: &mut Confirm| c.push(1));
    assert_eq!(queue.cap(), 1024);
    assert_eq!(queue.len(), std::mem::size_of::<usize>());
    let chunk: HVec<Confirm> = HVec::new();
    assert_eq!(chunk.len(), 0);
    assert_eq!(chunk.cap(), 0);
}

#[test]
fn callback_new_and_room_for_pushes() {
    let mut q: FnOnceQueue<Vec<u32>> = FnOnceQueue::new();
    let cost = push_cost_exec::<Vec<u32>>();
    assert!(cost > 0);
    assert!((q.len() as u128) + cost <= max_cap_exec() as u128);
    q.push_callback(Callback::new(|v: &mut Vec<u32>| v.push(1)));
    q.push_callback(Callback::new(|v: &mut Vec<u32>| v.push(2)));
    let mut out = Vec::new();
    q.execute(&mut out);
    assert_eq!(out, vec![1, 2]);
}
