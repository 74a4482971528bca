//! Architecture-neutral keyboard event queue: a bounded FIFO that, once
//! full, drops the oldest key to make room for the newest.

use vstd::prelude::*;

verus! {

pub const KEY_QUEUE_CAPACITY: usize = 64;

#[derive(Clone, Copy, Debug, PartialEq, Eq, Structural)]
pub enum KeyInput {
    Char(u8),
    Tab { shift: bool },
    Left,
    Right,
    Up,
    Down,
    Backspace,
    Enter,
}

pub struct KeyboardQueue {
    buffer: [Option<KeyInput>; KEY_QUEUE_CAPACITY],
    head: usize,
    length: usize,
}

/// The buffer position `i` places after `head`, wrapping once.
pub open spec fn slot(head: int, i: int) -> int {
    if head + i < KEY_QUEUE_CAPACITY {
        head + i
    } else {
        head + i - KEY_QUEUE_CAPACITY
    }
}

impl View for KeyboardQueue {
    type V = Seq<KeyInput>;

    /// The queued keys, oldest first.
    closed spec fn view(&self) -> Seq<KeyInput> {
        Seq::new(self.length as nat, |i: int| self.buffer@[slot(self.head as int, i)].unwrap())
    }
}

impl KeyboardQueue {
    pub closed spec fn wf(&self) -> bool {
        &&& self.head < KEY_QUEUE_CAPACITY
        &&& self.length <= KEY_QUEUE_CAPACITY
        &&& forall|i: int| 0 <= i < self.length ==> (#[trigger] self.buffer@[slot(self.head as int, i)]) is Some
    }

    /// An empty queue.
    pub fn new() -> (r: Self)
        ensures
            r.wf(),
            r@ == Seq::<KeyInput>::empty(),
    {
        let r = KeyboardQueue { buffer: [None; KEY_QUEUE_CAPACITY], head: 0, length: 0 };
        assert(r@ =~= Seq::<KeyInput>::empty());
        r
    }
}

fn wrap(head: usize, i: usize) -> (r: usize)
    requires
        head < KEY_QUEUE_CAPACITY,
        i <= KEY_QUEUE_CAPACITY,
    ensures
        r == slot(head as int, i as int),
        r < KEY_QUEUE_CAPACITY || (i == KEY_QUEUE_CAPACITY && r == head),
{
    if head + i < KEY_QUEUE_CAPACITY {
        head + i
    } else {
        head + i - KEY_QUEUE_CAPACITY
    }
}

/// Queue a key; when the queue is full the oldest key is dropped.
pub fn push(queue: &mut KeyboardQueue, input: KeyInput)
    requires
        old(queue).wf(),
    ensures
        final(queue).wf(),
        final(queue)@ == (if old(queue)@.len() == KEY_QUEUE_CAPACITY {
            old(queue)@.drop_first().push(input)
        } else {
            old(queue)@.push(input)
        }),
{
    let ghost before = queue@;
    let ghost h0 = queue.head as int;
    let tail = wrap(queue.head, queue.length);
    queue.buffer[tail] = Some(input);
    if queue.length == KEY_QUEUE_CAPACITY {
        queue.head = wrap(queue.head, 1);
        proof {
            assert forall|i: int| 0 <= i < queue.length implies #[trigger] slot(queue.head as int, i) == slot(h0, i + 1)
                && (i < KEY_QUEUE_CAPACITY - 1 ==> slot(h0, i + 1) != tail) by {}
            assert(queue@ =~= before.drop_first().push(input));
        }
    } else {
        queue.length += 1;
        proof {
            assert forall|i: int| 0 <= i < queue.length - 1 implies #[trigger] slot(h0, i) != tail by {}
            assert(queue@ =~= before.push(input));
        }
    }
}

/// Take the oldest queued key, if any.
pub fn try_read_key(queue: &mut KeyboardQueue) -> (r: Option<KeyInput>)
    requires
        old(queue).wf(),
    ensures
        final(queue).wf(),
        old(queue)@.len() == 0 ==> r is None && final(queue)@ == old(queue)@,
        old(queue)@.len() > 0 ==> r == Some(old(queue)@[0]) && final(queue)@ == old(queue)@.drop_first(),
{
    if queue.length == 0 {
        return None;
    }
    let ghost before = queue@;
    let h = queue.head;
    let event = queue.buffer[h];
    assert(slot(h as int, 0) == h);
    queue.buffer[h] = None;
    queue.head = wrap(h, 1);
    queue.length -= 1;
    proof {
        assert forall|i: int| 0 <= i < queue.length implies #[trigger] slot(queue.head as int, i) == slot(h as int, i + 1)
            && slot(h as int, i + 1) != h by {}
        assert(queue@ =~= before.drop_first());
    }
    event
}

/// Whether a key is waiting.
pub fn has_pending_key(queue: &KeyboardQueue) -> (r: bool)
    requires
        queue.wf(),
    ensures
        r == (queue@.len() > 0),
{
    queue.length != 0
}

/// Keys come out in the order they went in: a key pushed onto a queue with
/// room is read back after every key queued before it.
pub proof fn lemma_fifo(before: Seq<KeyInput>, input: KeyInput)
    requires
        before.len() < KEY_QUEUE_CAPACITY,
    ensures
        before.push(input)[before.len() as int] == input,
        before.len() > 0 ==> before.push(input)[0] == before[0],
        before.len() > 0 ==> before.push(input).drop_first() == before.drop_first().push(input),
{
    if before.len() > 0 {
        assert(before.push(input).drop_first() =~= before.drop_first().push(input));
    }
}

} // verus!
