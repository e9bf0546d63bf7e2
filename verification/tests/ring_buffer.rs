use jos_core::ring_buffer::RingBuffer;
use core::sync::atomic::{AtomicUsize, Ordering};

// helper: a value that increments a shared counter when dropped.
// Debug is derived so that push(...).unwrap() compiles (unwrap requires
// E: Debug; the Err variant here is Dropper itself).
#[derive(Debug)]
struct Dropper<'a> {
    counter: &'a AtomicUsize,
}
impl Drop for Dropper<'_> {
    fn drop(&mut self) {
        self.counter.fetch_add(1, Ordering::Relaxed);
    }
}

// --- basic capacity / state tests ---

#[test]
fn new_buffer_is_empty() {
    let buf: RingBuffer<u32, 4> = RingBuffer::new();
    assert!(buf.is_empty());
    assert!(!buf.is_full());
    assert_eq!(buf.len(), 0);
    assert_eq!(buf.capacity(), 4);
}

#[test]
fn single_push_pop_roundtrip() {
    let mut buf: RingBuffer<u32, 4> = RingBuffer::new();
    assert!(buf.push(42).is_ok());
    assert_eq!(buf.len(), 1);
    assert!(!buf.is_empty());
    assert_eq!(buf.pop(), Some(42));
    assert!(buf.is_empty());
}

#[test]
fn push_until_full() {
    let mut buf: RingBuffer<u32, 3> = RingBuffer::new();
    assert!(buf.push(1).is_ok());
    assert!(buf.push(2).is_ok());
    assert!(buf.push(3).is_ok());
    assert!(buf.is_full());
    assert_eq!(buf.len(), 3);
}

#[test]
fn push_on_full_returns_err_with_value() {
    let mut buf: RingBuffer<u32, 2> = RingBuffer::new();
    buf.push(10).unwrap();
    buf.push(20).unwrap();
    let rejected = buf.push(99);
    assert_eq!(rejected, Err(99));
    // buffer state unchanged
    assert!(buf.is_full());
    assert_eq!(buf.len(), 2);
}

#[test]
fn pop_on_empty_returns_none() {
    let mut buf: RingBuffer<u32, 4> = RingBuffer::new();
    assert_eq!(buf.pop(), None);
    assert_eq!(buf.len(), 0);
}

// --- fifo ordering ---

#[test]
fn ring_buffer_fifo_ordering() {
    let mut buf: RingBuffer<u32, 8> = RingBuffer::new();
    for i in 0..8_u32 {
        buf.push(i).unwrap();
    }
    for i in 0..8_u32 {
        assert_eq!(buf.pop(), Some(i));
    }
    assert!(buf.is_empty());
}

// --- wraparound: push/pop cycles that loop the indices past N many times ---

#[test]
fn wraparound_many_cycles() {
    const CAP: usize = 4;
    let mut buf: RingBuffer<u32, CAP> = RingBuffer::new();
    // run 5 * CAP push/pop pairs so head and tail wrap multiple times.
    for round in 0..(5 * CAP) {
        let value = u32::try_from(round).unwrap();
        assert!(buf.push(value).is_ok());
        assert_eq!(buf.pop(), Some(value));
    }
    assert!(buf.is_empty());
}

#[test]
fn wraparound_partial_fill() {
    const CAP: usize = 4;
    let mut buf: RingBuffer<u32, CAP> = RingBuffer::new();
    // fill halfway, drain, repeat many times to exercise index wrap.
    for cycle in 0_u32..20 {
        for i in 0..2_u32 {
            buf.push(cycle * 100 + i).unwrap();
        }
        for i in 0..2_u32 {
            assert_eq!(buf.pop(), Some(cycle * 100 + i));
        }
    }
    assert!(buf.is_empty());
}

// --- drop correctness ---

#[test]
fn drop_on_nonempty_buffer_drops_all_elements() {
    let counter = AtomicUsize::new(0);
    {
        let mut buf: RingBuffer<Dropper<'_>, 4> = RingBuffer::new();
        buf.push(Dropper { counter: &counter }).unwrap();
        buf.push(Dropper { counter: &counter }).unwrap();
        buf.push(Dropper { counter: &counter }).unwrap();
        // pop one so we exercise a non-zero tail at drop time.
        let _popped = buf.pop(); // drops when _popped goes out of scope
        // buf holds 2 live elements; _popped holds 1
    }
    // all 3 droppers must have fired exactly once.
    assert_eq!(counter.load(Ordering::Relaxed), 3);
}

#[test]
fn no_double_drop_after_pop() {
    let counter = AtomicUsize::new(0);
    {
        let mut buf: RingBuffer<Dropper<'_>, 4> = RingBuffer::new();
        buf.push(Dropper { counter: &counter }).unwrap();
        let popped = buf.pop().unwrap(); // take ownership
        drop(popped); // explicit drop: counter -> 1
        // buf is now empty, its drop should not fire any more droppers.
    }
    assert_eq!(counter.load(Ordering::Relaxed), 1);
}

#[test]
fn drop_wraps_correctly() {
    // push 4, pop 2 (tail = 2), push 2 more (head wraps to 0 when N=4).
    // live elements are at indices 2, 3, 0, 1 -- crosses the array boundary.
    let counter = AtomicUsize::new(0);
    {
        let mut buf: RingBuffer<Dropper<'_>, 4> = RingBuffer::new();
        for _ in 0..4 {
            buf.push(Dropper { counter: &counter }).unwrap();
        }
        // pop two and drop them immediately.
        drop(buf.pop().unwrap());
        drop(buf.pop().unwrap());
        assert_eq!(counter.load(Ordering::Relaxed), 2);
        // push two more so the live window straddles the array boundary.
        buf.push(Dropper { counter: &counter }).unwrap();
        buf.push(Dropper { counter: &counter }).unwrap();
        // buf now holds 4 elements; dropping buf must fire 4 more.
    }
    assert_eq!(counter.load(Ordering::Relaxed), 6); // 2 manual + 4 from drop
}

// --- zero-capacity edge case ---

#[test]
fn zero_capacity_is_always_full_and_empty() {
    // a RingBuffer<T, 0> is simultaneously empty and full per the invariant:
    // len==0 => is_empty, len==N==0 => is_full.
    let mut buf: RingBuffer<u32, 0> = RingBuffer::new();
    assert!(buf.is_empty());
    assert!(buf.is_full());
    assert_eq!(buf.pop(), None);
    assert_eq!(buf.push(1), Err(1));
}

// --- size-1 edge case ---

#[test]
fn size_one_buffer() {
    let mut buf: RingBuffer<u32, 1> = RingBuffer::new();
    assert!(buf.push(7).is_ok());
    assert!(buf.is_full());
    assert_eq!(buf.push(8), Err(8));
    assert_eq!(buf.pop(), Some(7));
    assert!(buf.is_empty());
    // reuse after drain
    assert!(buf.push(99).is_ok());
    assert_eq!(buf.pop(), Some(99));
}

// --- default() delegates to new() ---

#[test]
fn default_equals_new() {
    let buf: RingBuffer<u32, 4> = RingBuffer::default();
    assert!(buf.is_empty());
    assert_eq!(buf.capacity(), 4);
}

// a value that notes its number when dropped.
struct Noted<'a> {
    number: u32,
    notes: &'a std::cell::RefCell<Vec<u32>>,
}
impl Drop for Noted<'_> {
    fn drop(&mut self) {
        self.notes.borrow_mut().push(self.number);
    }
}

#[test]
fn a_wrapped_buffer_drops_its_elements_oldest_first() {
    let notes = std::cell::RefCell::new(Vec::new());
    {
        let mut buf: RingBuffer<Noted, 3> = RingBuffer::new();
        for number in 0..3 {
            assert!(buf.push(Noted { number, notes: &notes }).is_ok());
        }
        drop(buf.pop());
        drop(buf.pop());
        for number in 3..5 {
            assert!(buf.push(Noted { number, notes: &notes }).is_ok());
        }
        assert_eq!(notes.borrow().len(), 2);
    }
    assert_eq!(*notes.borrow(), vec![0, 1, 2, 3, 4]);
}

#[test]
fn what_comes_out_and_what_is_held_is_what_went_in() {
    let mut buf: RingBuffer<u32, 3> = RingBuffer::new();
    let mut taken_in = Vec::new();
    let mut given_out = Vec::new();
    for i in 0..50 {
        if i % 7 < 4 {
            if buf.push(i).is_ok() {
                taken_in.push(i);
            }
        } else if let Some(v) = buf.pop() {
            given_out.push(v);
        }
    }
    while let Some(v) = buf.pop() {
        given_out.push(v);
    }
    assert_eq!(given_out, taken_in);
}

#[test]
fn a_buffer_without_room_refuses_everything() {
    let mut buf: RingBuffer<u32, 0> = RingBuffer::default();
    assert!(buf.is_empty() && buf.is_full());
    assert_eq!(buf.push(1), Err(1));
    assert_eq!(buf.pop(), None);
}

#[test]
fn a_full_buffer_drops_everything_once() {
    let notes = std::cell::RefCell::new(Vec::new());
    {
        let mut buf: RingBuffer<Noted, 4> = RingBuffer::new();
        for number in 0..6 {
            if buf.is_full() {
                drop(buf.pop());
            }
            assert!(buf.push(Noted { number, notes: &notes }).is_ok());
        }
    }
    assert_eq!(*notes.borrow(), vec![0, 1, 2, 3, 4, 5]);
}
