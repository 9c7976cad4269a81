//! A pipe links two file descriptors, one reading and one writing, with a
//! ring buffer in between.

use vstd::prelude::*;

verus! {

use vstd::arithmetic::div_mod::lemma_fundamental_div_mod;
use vstd::arithmetic::div_mod::lemma_mod_multiples_vanish;
use vstd::arithmetic::div_mod::lemma_mod_bound;
use crate::errno;
use crate::errno::Errno;

/// The capacity in bytes of a pipe's buffer.
pub const PIPE_BUF: usize = 4096;

/// Event mask bit: data is available for reading.
pub const POLLIN: u32 = 0x1;

/// Event mask bit: exceptional condition.
pub const POLLPRI: u32 = 0x2;

/// Event mask bit: writing will not block.
pub const POLLOUT: u32 = 0x4;

/// The ioctl request asking for the number of bytes that can be read.
pub const FIONREAD: u32 = 0x541b;

/// A pipe's buffer: a ring over fixed storage, with the counts of the
/// reading and writing ends attached to the pipe.
pub struct PipeBuffer {
    /// The ring storage.
    buffer: Vec<u8>,
    /// Offset of the first byte to be read.
    start: usize,
    /// The number of bytes stored.
    len: usize,
    /// The number of reading ends attached to the pipe.
    read_ends: u32,
    /// The number of writing ends attached to the pipe.
    write_ends: u32,
}

impl View for PipeBuffer {
    type V = Seq<u8>;

    /// The bytes waiting in the pipe, in reading order.
    closed spec fn view(&self) -> Seq<u8> {
        Seq::new(
            self.len as nat,
            |i: int| self.buffer@[(self.start + i) % (self.buffer@.len() as int)],
        )
    }
}

impl PipeBuffer {
    /// The ring geometry is sound: full storage, cursor and count in
    /// range.
    pub closed spec fn wf(self) -> bool {
        &&& self.buffer@.len() == PIPE_BUF
        &&& self.start < PIPE_BUF
        &&& self.len <= PIPE_BUF
    }

    /// The number of reading ends.
    pub closed spec fn spec_read_ends(self) -> u32 {
        self.read_ends
    }

    /// The number of writing ends.
    pub closed spec fn spec_write_ends(self) -> u32 {
        self.write_ends
    }

    /// Creates an empty pipe buffer with no end attached.
    pub fn try_default() -> (r: Result<PipeBuffer, Errno>)
        ensures
            r matches Ok(p) && p.wf() && p@ == Seq::<u8>::empty() && p.spec_read_ends() == 0
                && p.spec_write_ends() == 0,
    {
        let mut buffer: Vec<u8> = Vec::new();
        let mut i: usize = 0;
        while i < PIPE_BUF
            invariant
                i <= PIPE_BUF,
                buffer@.len() == i as int,
            decreases PIPE_BUF - i,
        {
            buffer.push(0);
            i = i + 1;
        }
        let p = PipeBuffer { buffer, start: 0, len: 0, read_ends: 0, write_ends: 0 };
        proof {
            assert(p@ =~= Seq::<u8>::empty());
        }
        Ok(p)
    }

    /// Returns the length of the data to be read in the buffer.
    pub fn get_data_len(&self) -> (r: usize)
        ensures
            r == self@.len(),
    {
        self.len
    }

    /// Returns the available space in the buffer in bytes.
    pub fn get_available_len(&self) -> (r: usize)
        requires
            self.wf(),
        ensures
            r == PIPE_BUF - self@.len(),
    {
        PIPE_BUF - self.len
    }

    /// Returns the buffer's total capacity.
    pub fn get_capacity(&self) -> (r: usize)
        requires
            self.wf(),
        ensures
            r == PIPE_BUF,
    {
        self.buffer.len()
    }

    /// Returns the number of bytes in the pipe, as the size of the object.
    pub fn get_size(&self) -> (r: u64)
        ensures
            r == self@.len(),
    {
        self.len as u64
    }

    /// Accounts for a new open end of the pipe.
    pub fn increment_open(&mut self, read: bool, write: bool)
        requires
            read ==> old(self).spec_read_ends() < u32::MAX,
            write ==> old(self).spec_write_ends() < u32::MAX,
        ensures
            final(self).wf() == old(self).wf(),
            final(self)@ == old(self)@,
            final(self).spec_read_ends() == old(self).spec_read_ends() + (if read {
                1int
            } else {
                0int
            }),
            final(self).spec_write_ends() == old(self).spec_write_ends() + (if write {
                1int
            } else {
                0int
            }),
    {
        if read {
            self.read_ends = self.read_ends + 1;
        }
        if write {
            self.write_ends = self.write_ends + 1;
        }
    }

    /// Accounts for a closed end of the pipe.
    pub fn decrement_open(&mut self, read: bool, write: bool)
        requires
            read ==> old(self).spec_read_ends() > 0,
            write ==> old(self).spec_write_ends() > 0,
        ensures
            final(self).wf() == old(self).wf(),
            final(self)@ == old(self)@,
            final(self).spec_read_ends() == old(self).spec_read_ends() - (if read {
                1int
            } else {
                0int
            }),
            final(self).spec_write_ends() == old(self).spec_write_ends() - (if write {
                1int
            } else {
                0int
            }),
    {
        if read {
            self.read_ends = self.read_ends - 1;
        }
        if write {
            self.write_ends = self.write_ends - 1;
        }
    }

    /// Reads as many bytes as available into the front of `buf`, returning
    /// the count read and whether the end of the pipe was reached: no data
    /// left and no writing end attached. The offset of the pipe's reading
    /// side is immaterial: data leaves in first-in first-out order.
    pub fn read(&mut self, buf: &mut Vec<u8>) -> (r: (u64, bool))
        requires
            old(self).wf(),
        ensures
            final(self).wf(),
            final(self).spec_read_ends() == old(self).spec_read_ends(),
            final(self).spec_write_ends() == old(self).spec_write_ends(),
            ({
                let n = if old(self)@.len() < old(buf)@.len() {
                    old(self)@.len() as int
                } else {
                    old(buf)@.len() as int
                };
                &&& r.0 == n
                &&& final(buf)@.len() == old(buf)@.len()
                &&& final(buf)@.subrange(0, n) == old(self)@.subrange(0, n)
                &&& final(self)@ == old(self)@.subrange(n, old(self)@.len() as int)
                &&& r.1 == (final(self).spec_write_ends() == 0 && final(self)@.len() == 0)
            }),
    {
        let n = if self.len < buf.len() {
            self.len
        } else {
            buf.len()
        };
        let mut i: usize = 0;
        while i < n
            invariant
                self == old(self),
                self.wf(),
                n <= self@.len(),
                n <= buf@.len(),
                buf@.len() == old(buf)@.len(),
                i <= n,
                forall|j: int| 0 <= j < i as int ==> buf@[j] == self@[j],
            decreases n - i,
        {
            let b = self.buffer[(self.start + i) % PIPE_BUF];
            buf.set(i, b);
            i = i + 1;
        }
        let ghost pre = *self;
        self.start = (self.start + n) % PIPE_BUF;
        self.len = self.len - n;
        proof {
            lemma_mod_bound((pre.start + n) as int, PIPE_BUF as int);
            assert forall|j: int| 0 <= j < self.len implies self@[j] == pre@[j + n] by {
                let c = PIPE_BUF as int;
                let a = pre.start as int + n;
                lemma_fundamental_div_mod(a, c);
                lemma_mod_multiples_vanish(a / c, a % c + j, c);
                assert(c * (a / c) + (a % c + j) == a + j);
            }
            assert(final(self)@ =~= pre@.subrange(n as int, pre@.len() as int));
            assert(final(buf)@.subrange(0, n as int) =~= pre@.subrange(0, n as int));
        }
        let eof = self.write_ends == 0 && self.len == 0;
        (n as u64, eof)
    }

    /// Writes as many bytes of `buf` as fit into the pipe, provided a
    /// reading end is attached; fails with `EPIPE` otherwise. Returns the
    /// number of bytes taken.
    pub fn write(&mut self, buf: &Vec<u8>) -> (r: Result<u64, Errno>)
        requires
            old(self).wf(),
        ensures
            final(self).wf(),
            final(self).spec_read_ends() == old(self).spec_read_ends(),
            final(self).spec_write_ends() == old(self).spec_write_ends(),
            match r {
                Ok(written) => {
                    let n = if buf@.len() < PIPE_BUF - old(self)@.len() {
                        buf@.len() as int
                    } else {
                        PIPE_BUF - old(self)@.len()
                    };
                    &&& old(self).spec_read_ends() > 0
                    &&& written == n
                    &&& final(self)@ == old(self)@ + buf@.subrange(0, n)
                },
                Err(e) => e == errno::EPIPE && old(self).spec_read_ends() == 0 && final(self)@
                    == old(self)@,
            },
    {
        if self.read_ends == 0 {
            return Err(errno::EPIPE);
        }
        let avail = PIPE_BUF - self.len;
        let n = if buf.len() < avail {
            buf.len()
        } else {
            avail
        };
        let ghost pre = *self;
        let mut i: usize = 0;
        while i < n
            invariant
                pre.wf(),
                self.buffer@.len() == PIPE_BUF,
                self.start == pre.start,
                self.len == pre.len,
                self.read_ends == pre.read_ends,
                self.write_ends == pre.write_ends,
                n <= buf@.len(),
                n + pre.len <= PIPE_BUF,
                i <= n,
                forall|j: int|
                    0 <= j < pre.len + i as int ==> #[trigger] self.buffer@[(pre.start + j) % (
                    PIPE_BUF as int)] == (if j < pre.len {
                        pre@[j]
                    } else {
                        buf@[j - pre.len]
                    }),
            decreases n - i,
        {
            let pos = (self.start + self.len + i) % PIPE_BUF;
            let b = buf[i];
            let ghost prebuf = self.buffer@;
            self.buffer.set(pos, b);
            proof {
                let c = PIPE_BUF as int;
                assert forall|j: int| 0 <= j < pre.len + i as int + 1
                    implies #[trigger] self.buffer@[(pre.start + j) % c] == (if j < pre.len {
                        pre@[j]
                    } else {
                        buf@[j - pre.len]
                    }) by {
                    lemma_mod_bound((pre.start + j) as int, c);
                    if j < pre.len + i as int {
                        // An earlier slot: it was only overwritten if the two
                        // ring positions coincide, which the bound on the
                        // count rules out.
                        if (pre.start + j) % c == pos as int {
                            let jj = pre.len + i as int;
                            lemma_mod_injective(pre.start as int, j, jj, c);
                        }
                        assert(self.buffer@[(pre.start + j) % c] == prebuf[(pre.start + j)
                            % c]);
                    } else {
                        assert(j == pre.len + i as int);
                        assert((pre.start + j) % c == pos as int);
                    }
                }
            }
            i = i + 1;
        }
        self.len = self.len + n;
        proof {
            assert(final(self)@ =~= pre@ + buf@.subrange(0, n as int));
        }
        Ok(n as u64)
    }

    /// Reports which of the events in `mask` are pending on the pipe:
    /// reading when data is buffered, writing when space is left, and an
    /// exceptional condition when no reading end remains.
    pub fn poll(&self, mask: u32) -> (r: Result<u32, Errno>)
        requires
            self.wf(),
        ensures
            r matches Ok(v) && v == (if mask & POLLIN != 0 && self@.len() > 0 {
                POLLIN
            } else {
                0u32
            }) | (if mask & POLLOUT != 0 && self@.len() < PIPE_BUF {
                POLLOUT
            } else {
                0u32
            }) | (if mask & POLLPRI != 0 && self.spec_read_ends() == 0 {
                POLLPRI
            } else {
                0u32
            }),
    {
        let mut result: u32 = 0;
        if mask & POLLIN != 0 && self.len > 0 {
            result = result | POLLIN;
        }
        if mask & POLLOUT != 0 && self.len < PIPE_BUF {
            result = result | POLLOUT;
        }
        if mask & POLLPRI != 0 && self.read_ends == 0 {
            result = result | POLLPRI;
        }
        proof {
            let a: u32 = if mask & POLLIN != 0 && self@.len() > 0 {
                POLLIN
            } else {
                0u32
            };
            let b: u32 = if mask & POLLOUT != 0 && self@.len() < PIPE_BUF {
                POLLOUT
            } else {
                0u32
            };
            let c: u32 = if mask & POLLPRI != 0 && self.spec_read_ends() == 0 {
                POLLPRI
            } else {
                0u32
            };
            lemma_or_zero(a);
            lemma_or_zero(b);
            lemma_or_zero(c);
            lemma_or_zero(a | b);
            lemma_or_zero(a | b | c);
        }
        Ok(result)
    }

    /// Answers the `FIONREAD` ioctl with the number of bytes available for
    /// reading; any other request fails with `ENOTTY`.
    pub fn ioctl(&self, request: u32) -> (r: Result<usize, Errno>)
        requires
            self.wf(),
        ensures
            match r {
                Ok(v) => request == FIONREAD && v == PIPE_BUF - self@.len(),
                Err(e) => e == errno::ENOTTY && request != FIONREAD,
            },
    {
        if request == FIONREAD {
            Ok(self.get_available_len())
        } else {
            Err(errno::ENOTTY)
        }
    }
}

/// Zero is neutral for bit-or.
proof fn lemma_or_zero(x: u32)
    ensures
        x | 0 == x,
        0 | x == x,
{
    assert(x | 0 == x && 0 | x == x) by (bit_vector);
}

/// Two in-range counts from the same ring base land on the same slot only
/// if they are equal.
proof fn lemma_mod_injective(s: int, j: int, jj: int, c: int)
    requires
        c > 0,
        0 <= s < c,
        0 <= j < c,
        0 <= jj < c,
        j != jj,
    ensures
        (s + j) % c != (s + jj) % c,
{
    let lo = if j < jj {
        j
    } else {
        jj
    };
    let hi = if j < jj {
        jj
    } else {
        j
    };
    lemma_fundamental_div_mod(s + lo, c);
    lemma_mod_bound(s + lo, c);
    lemma_mod_multiples_vanish((s + lo) / c, (s + lo) % c + (hi - lo), c);
    assert(c * ((s + lo) / c) + ((s + lo) % c + (hi - lo)) == s + hi);
    if (s + lo) % c + (hi - lo) < c {
        vstd::arithmetic::div_mod::lemma_small_mod(((s + lo) % c + (hi - lo)) as nat, c as nat);
    } else {
        lemma_fundamental_div_mod((s + lo) % c + (hi - lo), c);
        lemma_mod_bound((s + lo) % c + (hi - lo), c);
        assert(((s + lo) % c + (hi - lo)) / c == 1) by (nonlinear_arith)
            requires
                c > 0,
                c <= (s + lo) % c + (hi - lo) < 2 * c,
        ;
    }
}

} // verus!
