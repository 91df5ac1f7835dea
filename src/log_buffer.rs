//! Byte queues for deferred text output. They never block and never fail:
//! when full, the oldest unread byte makes room for the new one.
use vstd::prelude::*;

verus! {

/// Slots in each queue; one slot stays empty, so a queue holds one byte
/// less.
pub const LOG_BUFFER_SIZE: usize = 409600;

/// A ring of bytes: unread bytes run from `tail` up to `head`.
pub struct LogQueue {
    pub buffer: Vec<u8>,
    pub head: usize,
    pub tail: usize,
}

/// The queue's contents after `c` is pushed onto `v`: the oldest byte is
/// dropped when the queue is full.
pub open spec fn push_one(v: Seq<u8>, c: u8) -> Seq<u8> {
    if v.len() == LOG_BUFFER_SIZE - 1 {
        v.drop_first().push(c)
    } else {
        v.push(c)
    }
}

/// The contents after every byte of `bytes` is pushed, in order.
pub open spec fn push_all(v: Seq<u8>, bytes: Seq<u8>) -> Seq<u8>
    decreases bytes.len(),
{
    if bytes.len() == 0 {
        v
    } else {
        push_one(push_all(v, bytes.drop_last()), bytes.last())
    }
}

impl LogQueue {
    pub open spec fn wf(&self) -> bool {
        &&& self.buffer@.len() == LOG_BUFFER_SIZE
        &&& self.head < LOG_BUFFER_SIZE
        &&& self.tail < LOG_BUFFER_SIZE
    }

    /// The unread bytes, oldest first.
    pub open spec fn view(&self) -> Seq<u8> {
        let n = (self.head - self.tail + LOG_BUFFER_SIZE) % (LOG_BUFFER_SIZE as int);
        Seq::new(n as nat, |i: int| self.buffer@[(self.tail + i) % (LOG_BUFFER_SIZE as int)])
    }

    pub fn new() -> (r: LogQueue)
        ensures
            r.wf(),
            r.view() == Seq::<u8>::empty(),
    {
        let r = LogQueue { buffer: vec![0u8; LOG_BUFFER_SIZE], head: 0, tail: 0 };
        assert(r.view() =~= Seq::<u8>::empty());
        r
    }

    /// Queues `c`, dropping the oldest unread byte if the queue is full.
    pub fn push_char(&mut self, c: u8)
        requires
            old(self).wf(),
        ensures
            final(self).wf(),
            final(self).view() == push_one(old(self).view(), c),
    {
        let h = self.head;
        let next = (h + 1) % LOG_BUFFER_SIZE;
        if next == self.tail {
            self.tail = (self.tail + 1) % LOG_BUFFER_SIZE;
        }
        self.buffer.set(h, c);
        self.head = next;
        proof {
            let old_v = old(self).view();
            let ov = if old_v.len() == LOG_BUFFER_SIZE - 1 {
                old_v.drop_first()
            } else {
                old_v
            };
            assert(self.view().len() == ov.len() + 1);
            assert forall|i: int| 0 <= i < self.view().len() implies #[trigger] self.view()[i]
                == ov.push(c)[i] by {
                if i < ov.len() {
                    if old_v.len() == LOG_BUFFER_SIZE - 1 {
                        assert(ov[i] == old_v[i + 1]);
                    }
                }
            }
            assert(self.view() =~= ov.push(c));
        }
    }

    /// Takes the oldest unread byte, if any.
    pub fn pop_char(&mut self) -> (r: Option<u8>)
        requires
            old(self).wf(),
        ensures
            final(self).wf(),
            old(self).view().len() == 0 ==> r is None && final(self).view() == old(self).view(),
            old(self).view().len() > 0 ==> r == Some(old(self).view()[0]) && final(self).view()
                == old(self).view().drop_first(),
    {
        let t = self.tail;
        if t == self.head {
            return None;
        }
        let c = self.buffer[t];
        self.tail = (t + 1) % LOG_BUFFER_SIZE;
        proof {
            assert(self.view() =~= old(self).view().drop_first());
        }
        Some(c)
    }
}

/// Where a line of log output goes.
#[derive(Clone, Copy, Debug, PartialEq, Eq, Structural)]
pub enum LogTarget {
    Display,
    Serial,
    Both,
}

/// Queues `bytes` for the display, the serial line, or both.
pub fn log_print(bytes: &[u8], target: LogTarget, display: &mut LogQueue, serial: &mut LogQueue)
    requires
        old(display).wf(),
        old(serial).wf(),
    ensures
        final(display).wf(),
        final(serial).wf(),
        final(display).view() == if target != LogTarget::Serial {
            push_all(old(display).view(), bytes@)
        } else {
            old(display).view()
        },
        final(serial).view() == if target != LogTarget::Display {
            push_all(old(serial).view(), bytes@)
        } else {
            old(serial).view()
        },
{
    let mut i: usize = 0;
    while i < bytes.len()
        invariant
            i <= bytes@.len(),
            display.wf(),
            serial.wf(),
            display.view() == if target != LogTarget::Serial {
                push_all(old(display).view(), bytes@.subrange(0, i as int))
            } else {
                old(display).view()
            },
            serial.view() == if target != LogTarget::Display {
                push_all(old(serial).view(), bytes@.subrange(0, i as int))
            } else {
                old(serial).view()
            },
        decreases bytes@.len() - i,
    {
        let b = bytes[i];
        proof {
            let pre = bytes@.subrange(0, i + 1);
            assert(pre.drop_last() =~= bytes@.subrange(0, i as int));
            assert(pre.last() == b);
        }
        match target {
            LogTarget::Display => display.push_char(b),
            LogTarget::Serial => serial.push_char(b),
            LogTarget::Both => {
                display.push_char(b);
                serial.push_char(b);
            },
        }
        i += 1;
    }
    proof {
        assert(bytes@.subrange(0, bytes@.len() as int) =~= bytes@);
    }
}

} // verus!
