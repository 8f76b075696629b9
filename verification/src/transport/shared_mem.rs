//! Messages through two rings in one shared memory.
//!
//! ```text
//! [ring A: server to client] [ring B: client to server]
//! ```
//!
//! Each ring is a header with two cursors and then its data. One process writes a ring and one
//! reads it. A process looks at both cursors, takes a step on the memory if it can, and then
//! moves its own cursor to where the step says.

use std::marker::PhantomData;
use vstd::arithmetic::div_mod::lemma_mod_bound;
use vstd::prelude::*;
use vstd::string::*;

use crate::bytes::{deliver, overwrite};
use crate::frame::{
    delivered_len, filled, frame, lemma_frame_parts, length_prefix, prefix_value,
    MSG_HEADER_SIZE,
};
pub use crate::frame::TooLarge;
use crate::ring::{
    announced, has_room, law_receive_takes_first, law_send_appends, law_write_stays_in_ring,
    law_writes_join, lemma_slice_splits, ring_announces, ring_holds, ring_receives, ring_sends,
    ring_slice, ring_takes, ring_written,
};
pub use crate::ring::Received;
pub use crate::transport::ring_layout::{
    CacheLineCursor, CompactHeader, CompactLayout, CompactUninit1kLayout, PaddedHeader,
    PaddedInline1kLayout, PaddedInline2kLayout, PaddedInline4kLayout, PaddedInline512Layout,
    PaddedInline8kLayout, PaddedInlineLayout, PaddedLayout, PaddedUninit1kLayout,
    PaddedUninit2kLayout, PaddedUninit4kLayout, PaddedUninit512Layout, PaddedUninit8kLayout,
    PaddedUninitLayout, RingHeader, RingLayout, RING_DATA_SIZE,
};
use crate::transport::ring_layout::{ordered, used, CACHE_LINE_SIZE, CURSOR_SIZE};
use crate::transport::Role;

verus! {

/// Bytes of one ring, header and data.
pub open spec fn ring_total<L: RingLayout>() -> int {
    L::HEADER_SIZE + RING_DATA_SIZE
}

/// Bytes of the shared memory, which holds two rings.
pub open spec fn shm_total<L: RingLayout>() -> int {
    2 * ring_total::<L>()
}

/// Where the ring lies that `role` writes.
pub open spec fn write_ring<L: RingLayout>(role: Role) -> int {
    match role {
        Role::Server => 0,
        Role::Client => ring_total::<L>(),
    }
}

/// Where the ring lies that `role` reads.
pub open spec fn read_ring<L: RingLayout>(role: Role) -> int {
    match role {
        Role::Server => ring_total::<L>(),
        Role::Client => 0,
    }
}

/// Where the data of a ring lies.
pub open spec fn data_start<L: RingLayout>(ring: int) -> int {
    ring + L::HEADER_SIZE
}

/// The cache line that holds a place of the shared memory, which starts with a line.
pub open spec fn cache_line(place: int) -> int {
    place / (CACHE_LINE_SIZE as int)
}

/// The other end of a channel.
pub open spec fn peer(role: Role) -> Role {
    match role {
        Role::Server => Role::Client,
        Role::Client => Role::Server,
    }
}

/// The file behind the shared memory.
pub open spec fn shm_file(name: Seq<char>) -> Seq<char> {
    "/dev/shm/ipc_bench_"@ + name
}

/// One end of a channel through shared memory, with the layout `L`.
pub struct SharedMemTransport<L: RingLayout> {
    role: Role,
    layout: PhantomData<L>,
}

/// Padded, prefix and payload copied one after the other.
pub type SharedMemPadded = SharedMemTransport<PaddedLayout>;

/// Compact, prefix and payload copied one after the other.
pub type SharedMemCompact = SharedMemTransport<CompactLayout>;

/// Compact, with joined frames.
pub type SharedMemCompactUninit1k = SharedMemTransport<CompactUninit1kLayout>;

pub type SharedMemInline = SharedMemTransport<PaddedInlineLayout>;

pub type SharedMemInline512 = SharedMemTransport<PaddedInline512Layout>;

pub type SharedMemInline1k = SharedMemTransport<PaddedInline1kLayout>;

pub type SharedMemInline2k = SharedMemTransport<PaddedInline2kLayout>;

pub type SharedMemInline4k = SharedMemTransport<PaddedInline4kLayout>;

pub type SharedMemInline8k = SharedMemTransport<PaddedInline8kLayout>;

pub type SharedMemUninit = SharedMemTransport<PaddedUninitLayout>;

pub type SharedMemUninit512 = SharedMemTransport<PaddedUninit512Layout>;

pub type SharedMemUninit1k = SharedMemTransport<PaddedUninit1kLayout>;

pub type SharedMemUninit2k = SharedMemTransport<PaddedUninit2kLayout>;

pub type SharedMemUninit4k = SharedMemTransport<PaddedUninit4kLayout>;

pub type SharedMemUninit8k = SharedMemTransport<PaddedUninit8kLayout>;

impl<L: RingLayout> SharedMemTransport<L> {
    /// The end of the channel that this is.
    pub closed spec fn role(&self) -> Role {
        self.role
    }

    /// The end of the channel that `role` holds.
    pub fn open(role: Role) -> (transport: Self)
        ensures
            transport.role() == role,
    {
        SharedMemTransport { role, layout: PhantomData }
    }

    /// The file behind the shared memory for the channel called `name`.
    pub fn shm_path(name: &str) -> (path: String)
        ensures
            path@ == shm_file(name@),
    {
        let mut path: String = "/dev/shm/ipc_bench_".to_owned();
        path.append(name);
        path
    }

    /// The file behind the shared memory for the channel called `name`, in the directory `dir`,
    /// whose name ends with a separator. For systems without `/dev/shm`.
    pub fn shm_path_in(dir: &str, name: &str) -> (path: String)
        ensures
            path@ == dir@ + "ipc_bench_"@ + name@,
    {
        let mut path: String = dir.to_owned();
        path.append("ipc_bench_");
        path.append(name);
        path
    }

    /// Bytes of one ring, header and data.
    pub fn ring_total_size() -> (size: usize)
        ensures
            size == ring_total::<L>(),
    {
        proof {
            L::law_layout_is_sound();
        }
        L::HEADER_SIZE + RING_DATA_SIZE
    }

    /// Bytes of the shared memory.
    pub fn shm_size() -> (size: usize)
        ensures
            size == shm_total::<L>(),
    {
        proof {
            L::law_layout_is_sound();
        }
        Self::ring_total_size() * 2
    }

    /// Whether the server has made the shared memory, given the length of its file, if there is
    /// one.
    pub fn is_created(file_len: Option<u64>) -> (created: bool)
        ensures
            created == (file_len matches Some(len) && len >= shm_total::<L>()),
    {
        match file_len {
            Some(len) => len >= Self::shm_size() as u64,
            None => false,
        }
    }

    fn write_ring_offset(&self) -> (offset: usize)
        ensures
            offset == write_ring::<L>(self.role()),
    {
        match self.role {
            Role::Server => 0,
            Role::Client => Self::ring_total_size(),
        }
    }

    fn read_ring_offset(&self) -> (offset: usize)
        ensures
            offset == read_ring::<L>(self.role()),
    {
        match self.role {
            Role::Server => Self::ring_total_size(),
            Role::Client => 0,
        }
    }

    /// Where the cursor lies that this end moves when it has sent.
    pub fn write_cursor(&self) -> (offset: usize)
        ensures
            offset == write_ring::<L>(self.role()) + L::WRITE_CURSOR_OFFSET,
    {
        proof {
            L::law_layout_is_sound();
        }
        self.write_ring_offset() + L::WRITE_CURSOR_OFFSET
    }

    /// Where the cursor lies that the peer moves when it has received.
    pub fn write_read_cursor(&self) -> (offset: usize)
        ensures
            offset == write_ring::<L>(self.role()) + L::READ_CURSOR_OFFSET,
    {
        proof {
            L::law_layout_is_sound();
        }
        self.write_ring_offset() + L::READ_CURSOR_OFFSET
    }

    /// Where the cursor lies that the peer moves when it has sent.
    pub fn read_write_cursor(&self) -> (offset: usize)
        ensures
            offset == read_ring::<L>(self.role()) + L::WRITE_CURSOR_OFFSET,
    {
        proof {
            L::law_layout_is_sound();
        }
        self.read_ring_offset() + L::WRITE_CURSOR_OFFSET
    }

    /// Where the cursor lies that this end moves when it has received.
    pub fn read_cursor(&self) -> (offset: usize)
        ensures
            offset == read_ring::<L>(self.role()) + L::READ_CURSOR_OFFSET,
    {
        proof {
            L::law_layout_is_sound();
        }
        self.read_ring_offset() + L::READ_CURSOR_OFFSET
    }

    /// Writes `data` into the ring at `ring_offset`, around its end if need be.
    pub fn ring_write_bytes(mem: &mut [u8], ring_offset: usize, cursor: u64, data: &[u8])
        requires
            ring_offset + ring_total::<L>() <= old(mem)@.len(),
            data@.len() <= RING_DATA_SIZE,
        ensures
            final(mem)@ == ring_written(
                old(mem)@,
                data_start::<L>(ring_offset as int),
                RING_DATA_SIZE as int,
                cursor as int,
                data@,
            ),
    {
        assert(ring_offset + ring_total::<L>() <= mem.len());
        let start: usize = ring_offset + L::HEADER_SIZE;
        crate::ring::ring_write_bytes(mem, start, RING_DATA_SIZE, cursor, data);
    }

    /// Fills `buf` from the ring at `ring_offset`, around its end if need be.
    pub fn ring_read_bytes(mem: &[u8], ring_offset: usize, cursor: u64, buf: &mut [u8])
        requires
            ring_offset + ring_total::<L>() <= mem@.len(),
            old(buf)@.len() <= RING_DATA_SIZE,
        ensures
            final(buf)@ == ring_slice(
                mem@,
                data_start::<L>(ring_offset as int),
                RING_DATA_SIZE as int,
                cursor as int,
                old(buf)@.len() as int,
            ),
    {
        assert(ring_offset + ring_total::<L>() <= mem.len());
        let start: usize = ring_offset + L::HEADER_SIZE;
        crate::ring::ring_read_bytes(mem, start, RING_DATA_SIZE, cursor, buf);
    }

    /// Accepts a message of `len` bytes for sending, unless it could never fit.
    pub fn check_size(len: usize) -> (checked: Result<(), TooLarge>)
        ensures
            checked is Ok <==> MSG_HEADER_SIZE + len <= RING_DATA_SIZE,
            checked matches Err(error) ==> error == (TooLarge {
                len,
                max: (RING_DATA_SIZE - MSG_HEADER_SIZE) as usize,
            }),
    {
        if len > RING_DATA_SIZE - MSG_HEADER_SIZE {
            Err(TooLarge { len, max: RING_DATA_SIZE - MSG_HEADER_SIZE })
        } else {
            Ok(())
        }
    }

    /// Writes the frame of `buf` at `cursor` into the ring that this end writes.
    fn write_message(&self, mem: &mut [u8], cursor: u64, buf: &[u8])
        requires
            shm_total::<L>() <= old(mem)@.len(),
            MSG_HEADER_SIZE + buf@.len() <= RING_DATA_SIZE,
            cursor + MSG_HEADER_SIZE + buf@.len() <= u64::MAX,
        ensures
            final(mem)@ == ring_written(
                old(mem)@,
                data_start::<L>(write_ring::<L>(self.role())),
                RING_DATA_SIZE as int,
                cursor as int,
                frame(buf@),
            ),
    {
        proof {
            L::law_layout_is_sound();
            lemma_frame_parts(buf@);
        }
        let ring: usize = self.write_ring_offset();
        let msg_len: usize = MSG_HEADER_SIZE + buf.len();
        let prefix: [u8; 4] = length_prefix(buf.len() as u32);
        if L::INLINE_FRAME_THRESHOLD > 0 && buf.len() <= L::INLINE_FRAME_THRESHOLD {
            if L::USE_UNINIT_FRAME {
                let mut joined: Vec<u8> = Vec::with_capacity(msg_len);
                joined.extend_from_slice(&prefix);
                joined.extend_from_slice(buf);
                assert(joined@ =~= frame(buf@));
                Self::ring_write_bytes(mem, ring, cursor, &joined);
            } else {
                let mut joined: [u8; 8196] = [0u8; 8196];
                overwrite(&mut joined, 0, &prefix);
                overwrite(&mut joined, MSG_HEADER_SIZE, buf);
                assert(joined@.subrange(0, msg_len as int) =~= frame(buf@));
                Self::ring_write_bytes(mem, ring, cursor, &joined[0..msg_len]);
            }
        } else {
            Self::ring_write_bytes(mem, ring, cursor, &prefix);
            Self::ring_write_bytes(mem, ring, cursor + MSG_HEADER_SIZE as u64, buf);
            proof {
                law_writes_join(
                    old(mem)@,
                    data_start::<L>(ring as int),
                    RING_DATA_SIZE as int,
                    cursor as int,
                    prefix@,
                    buf@,
                );
                assert(prefix@ + buf@ =~= frame(buf@));
            }
        }
    }

    /// Sends `buf` if the ring has room for it, given the cursors of the ring that this end
    /// writes. Returns where the write cursor has to go, or `None` if the peer has to receive
    /// first.
    pub fn send_step(&self, mem: &mut [u8], header: &L::Header, buf: &[u8]) -> (sent: Option<u64>)
        requires
            shm_total::<L>() <= old(mem)@.len(),
            ordered(header),
            used(header) <= RING_DATA_SIZE,
            MSG_HEADER_SIZE + buf@.len() <= RING_DATA_SIZE,
            RING_DATA_SIZE - used(header) >= MSG_HEADER_SIZE + buf@.len() ==> header.written()
                + MSG_HEADER_SIZE + buf@.len() <= u64::MAX,
        ensures
            ring_sends(
                old(mem)@,
                data_start::<L>(write_ring::<L>(self.role())),
                RING_DATA_SIZE as int,
                header.written() as int,
                header.consumed() as int,
                buf@,
                sent,
                final(mem)@,
            ),
    {
        let msg_len: u64 = MSG_HEADER_SIZE as u64 + buf.len() as u64;
        let cursor: u64 = header.write_cursor();
        if has_room(RING_DATA_SIZE, cursor, header.read_cursor(), msg_len) {
            self.write_message(mem, cursor, buf);
            Some(cursor + msg_len)
        } else {
            None
        }
    }

    /// Sends `buf` if it is not too large and the ring has room for it, given the cursors of the
    /// ring that this end writes. Returns where the write cursor has to go, or `None` if the
    /// peer has to receive first.
    pub fn send(&self, mem: &mut [u8], header: &L::Header, buf: &[u8]) -> (sent: Result<
        Option<u64>,
        TooLarge,
    >)
        requires
            shm_total::<L>() <= old(mem)@.len(),
            MSG_HEADER_SIZE + buf@.len() <= RING_DATA_SIZE ==> {
                &&& ordered(header)
                &&& used(header) <= RING_DATA_SIZE
                &&& RING_DATA_SIZE - used(header) >= MSG_HEADER_SIZE + buf@.len()
                    ==> header.written() + MSG_HEADER_SIZE + buf@.len() <= u64::MAX
            },
        ensures
            sent is Ok <==> MSG_HEADER_SIZE + buf@.len() <= RING_DATA_SIZE,
            match sent {
                Ok(cursor) => ring_sends(
                    old(mem)@,
                    data_start::<L>(write_ring::<L>(self.role())),
                    RING_DATA_SIZE as int,
                    header.written() as int,
                    header.consumed() as int,
                    buf@,
                    cursor,
                    final(mem)@,
                ),
                Err(error) => {
                    &&& final(mem)@ == old(mem)@
                    &&& error == (TooLarge {
                        len: buf.len(),
                        max: (RING_DATA_SIZE - MSG_HEADER_SIZE) as usize,
                    })
                },
            },
    {
        match Self::check_size(buf.len()) {
            Ok(_) => Ok(self.send_step(mem, header, buf)),
            Err(e) => Err(e),
        }
    }

    /// The length of the next message, given the cursors of the ring that this end reads, or
    /// `None` if none has come yet.
    pub fn recv_length(&self, mem: &[u8], header: &L::Header) -> (len: Option<usize>)
        requires
            shm_total::<L>() <= mem@.len(),
            ordered(header),
        ensures
            ring_announces(
                mem@,
                data_start::<L>(read_ring::<L>(self.role())),
                RING_DATA_SIZE as int,
                header.written() as int,
                header.consumed() as int,
                len,
            ),
    {
        proof {
            L::law_layout_is_sound();
        }
        let cursor: u64 = header.read_cursor();
        if header.write_cursor() - cursor >= MSG_HEADER_SIZE as u64 {
            assert(shm_total::<L>() <= mem.len());
            let start: usize = self.read_ring_offset() + L::HEADER_SIZE;
            Some(crate::ring::ring_read_length(mem, start, RING_DATA_SIZE, cursor))
        } else {
            None
        }
    }

    /// Copies the payload of a message of `data_len` bytes, whose prefix stands at `cursor`, to
    /// the front of `buf`, as far as there is room.
    fn read_message(&self, mem: &[u8], cursor: u64, data_len: usize, buf: &mut [u8]) -> (n: usize)
        requires
            shm_total::<L>() <= mem@.len(),
            delivered_len(data_len as nat, old(buf)@.len()) <= RING_DATA_SIZE,
            cursor + MSG_HEADER_SIZE <= u64::MAX,
        ensures
            n == delivered_len(data_len as nat, old(buf)@.len()),
            final(buf)@ == filled(
                old(buf)@,
                ring_slice(
                    mem@,
                    data_start::<L>(read_ring::<L>(self.role())),
                    RING_DATA_SIZE as int,
                    cursor + MSG_HEADER_SIZE,
                    n as int,
                ),
                n as nat,
            ),
    {
        proof {
            L::law_layout_is_sound();
        }
        let ring: usize = self.read_ring_offset();
        let read_len: usize = if data_len <= buf.len() {
            data_len
        } else {
            buf.len()
        };
        let ghost start = data_start::<L>(ring as int);
        let ghost payload = ring_slice(
            mem@,
            start,
            RING_DATA_SIZE as int,
            cursor + MSG_HEADER_SIZE,
            read_len as int,
        );
        if L::INLINE_FRAME_THRESHOLD > 0 && data_len <= L::INLINE_FRAME_THRESHOLD {
            let msg_len: usize = MSG_HEADER_SIZE + data_len;
            proof {
                lemma_slice_splits(
                    mem@,
                    start,
                    RING_DATA_SIZE as int,
                    cursor as int,
                    MSG_HEADER_SIZE as int,
                    data_len as int,
                );
            }
            if L::USE_UNINIT_FRAME {
                let mut joined: Vec<u8> = vec![0u8; msg_len];
                Self::ring_read_bytes(mem, ring, cursor, &mut joined);
                assert(joined@.subrange(
                    MSG_HEADER_SIZE as int,
                    MSG_HEADER_SIZE + read_len,
                ) =~= payload);
                deliver(&joined[MSG_HEADER_SIZE..MSG_HEADER_SIZE + read_len], buf);
            } else {
                let mut joined: [u8; 8196] = [0u8; 8196];
                let (message, _) = joined.split_at_mut(msg_len);
                Self::ring_read_bytes(mem, ring, cursor, message);
                assert(message@.subrange(
                    MSG_HEADER_SIZE as int,
                    MSG_HEADER_SIZE + read_len,
                ) =~= payload);
                deliver(&message[MSG_HEADER_SIZE..MSG_HEADER_SIZE + read_len], buf);
            }
        } else {
            let (front, _) = buf.split_at_mut(read_len);
            Self::ring_read_bytes(mem, ring, cursor + MSG_HEADER_SIZE as u64, front);
        }
        proof {
            assert(final(buf)@ =~= filled(old(buf)@, payload, read_len as nat));
        }
        read_len
    }

    /// Receives the next message, whose length is known, given the cursors of the ring that
    /// this end reads. As much of it as fits goes to the front of `buf`; the rest is skipped.
    /// Returns `None` if the message has not come as a whole.
    pub fn recv_step(
        &self,
        mem: &[u8],
        header: &L::Header,
        data_len: usize,
        buf: &mut [u8],
    ) -> (received: Option<Received>)
        requires
            shm_total::<L>() <= mem@.len(),
            ordered(header),
            used(header) >= MSG_HEADER_SIZE + data_len ==> delivered_len(
                data_len as nat,
                old(buf)@.len(),
            ) <= RING_DATA_SIZE,
        ensures
            ring_receives(
                mem@,
                data_start::<L>(read_ring::<L>(self.role())),
                RING_DATA_SIZE as int,
                header.written() as int,
                header.consumed() as int,
                data_len as nat,
                old(buf)@,
                received,
                final(buf)@,
            ),
    {
        let cursor: u64 = header.read_cursor();
        let available: u64 = header.write_cursor() - cursor;
        if available >= MSG_HEADER_SIZE as u64 && available - MSG_HEADER_SIZE as u64
            >= data_len as u64 {
            let len: usize = self.read_message(mem, cursor, data_len, buf);
            Some(Received { len, cursor: cursor + MSG_HEADER_SIZE as u64 + data_len as u64 })
        } else {
            None
        }
    }

    /// Receives the next message if it has come as a whole, given the cursors of the ring that
    /// this end reads. As much of it as fits goes to the front of `buf`; the rest is skipped.
    /// Returns `None` if there is no such message yet. No writer leaves a message in a ring that
    /// is longer than the ring; where one claims to be, and would fill that much of `buf`, it is
    /// refused.
    pub fn recv(&self, mem: &[u8], header: &L::Header, buf: &mut [u8]) -> (received: Result<
        Option<Received>,
        TooLarge,
    >)
        requires
            shm_total::<L>() <= mem@.len(),
            ordered(header),
        ensures
            ({
                let start = data_start::<L>(read_ring::<L>(self.role()));
                let len = announced(
                    mem@,
                    start,
                    RING_DATA_SIZE as int,
                    header.consumed() as int,
                );
                &&& received is Err <==> {
                    &&& used(header) >= MSG_HEADER_SIZE
                    &&& used(header) >= MSG_HEADER_SIZE + len
                    &&& delivered_len(len, old(buf)@.len()) > RING_DATA_SIZE
                }
                &&& match received {
                    Ok(message) => ring_takes(
                        mem@,
                        start,
                        RING_DATA_SIZE as int,
                        header.written() as int,
                        header.consumed() as int,
                        old(buf)@,
                        message,
                        final(buf)@,
                    ),
                    Err(error) => {
                        &&& final(buf)@ == old(buf)@
                        &&& error.len == len
                        &&& error.max == RING_DATA_SIZE - MSG_HEADER_SIZE
                    },
                }
            }),
    {
        let data_len: usize = match self.recv_length(mem, header) {
            Some(len) => len,
            None => {
                return Ok(None);
            },
        };
        let available: u64 = header.write_cursor() - header.read_cursor();
        let there: bool = available - MSG_HEADER_SIZE as u64 >= data_len as u64;
        if there && data_len > RING_DATA_SIZE && buf.len() > RING_DATA_SIZE {
            return Err(TooLarge { len: data_len, max: RING_DATA_SIZE - MSG_HEADER_SIZE });
        }
        Ok(self.recv_step(mem, header, data_len, buf))
    }

    /// The name to print in reports.
    pub fn transport_name() -> (name: &'static str)
        ensures
            name@ == L::LABEL@,
    {
        L::LABEL
    }
}

/// Channels with different names have different files.
pub proof fn law_shm_files_differ(left: Seq<char>, right: Seq<char>)
    ensures
        shm_file(left) == shm_file(right) <==> left == right,
{
    if shm_file(left) == shm_file(right) {
        let prefix = "/dev/shm/ipc_bench_"@;
        assert(left =~= shm_file(left).skip(prefix.len() as int));
        assert(right =~= shm_file(right).skip(prefix.len() as int));
    }
}

/// The ring that one end writes is the ring that the other end reads, and the two rings of an
/// end lie side by side in the shared memory.
pub proof fn law_rings_pair_up<L: RingLayout>(role: Role)
    ensures
        write_ring::<L>(role) == read_ring::<L>(peer(role)),
        read_ring::<L>(role) == write_ring::<L>(peer(role)),
        0 <= write_ring::<L>(role) <= shm_total::<L>() - ring_total::<L>(),
        0 <= read_ring::<L>(role) <= shm_total::<L>() - ring_total::<L>(),
        write_ring::<L>(role) + ring_total::<L>() <= read_ring::<L>(role) || read_ring::<L>(role)
            + ring_total::<L>() <= write_ring::<L>(role),
{
}

/// Multiples of eight add up to one.
proof fn lemma_multiples_of_eight(left: int, right: int)
    requires
        left % 8 == 0,
        right % 8 == 0,
    ensures
        (left + right) % 8 == 0,
{
}

/// Every cursor of both rings lies at a multiple of eight, in front of its ring's data, and no
/// two of the four overlap.
pub proof fn law_cursors_have_their_own_places<L: RingLayout>(role: Role)
    ensures
        forall|ring: int|
            #![trigger data_start::<L>(ring)]
            ring == write_ring::<L>(role) || ring == read_ring::<L>(role) ==> {
                &&& (ring + L::WRITE_CURSOR_OFFSET) % (CURSOR_SIZE as int) == 0
                &&& (ring + L::READ_CURSOR_OFFSET) % (CURSOR_SIZE as int) == 0
                &&& ring + L::WRITE_CURSOR_OFFSET + CURSOR_SIZE <= data_start::<L>(ring)
                &&& ring + L::READ_CURSOR_OFFSET + CURSOR_SIZE <= data_start::<L>(ring)
            },
        L::WRITE_CURSOR_OFFSET + CURSOR_SIZE <= L::READ_CURSOR_OFFSET || L::READ_CURSOR_OFFSET
            + CURSOR_SIZE <= L::WRITE_CURSOR_OFFSET,
        data_start::<L>(write_ring::<L>(role)) + RING_DATA_SIZE <= read_ring::<L>(role)
            || data_start::<L>(read_ring::<L>(role)) + RING_DATA_SIZE <= write_ring::<L>(role),
{
    L::law_layout_is_sound();
    let total = ring_total::<L>();
    let (w, r) = (L::WRITE_CURSOR_OFFSET as int, L::READ_CURSOR_OFFSET as int);
    assert(w % 8 == 0 && r % 8 == 0 && L::HEADER_SIZE as int % 8 == 0);
    assert(RING_DATA_SIZE == 8 * 2097152);
    lemma_multiples_of_eight(L::HEADER_SIZE as int, RING_DATA_SIZE as int);
    lemma_multiples_of_eight(0, w);
    lemma_multiples_of_eight(0, r);
    lemma_multiples_of_eight(total, w);
    lemma_multiples_of_eight(total, r);
    assert forall|ring: int|
        #![trigger data_start::<L>(ring)]
        ring == write_ring::<L>(role) || ring == read_ring::<L>(role) implies {
        &&& (ring + L::WRITE_CURSOR_OFFSET) % (CURSOR_SIZE as int) == 0
        &&& (ring + L::READ_CURSOR_OFFSET) % (CURSOR_SIZE as int) == 0
        &&& ring + L::WRITE_CURSOR_OFFSET + CURSOR_SIZE <= data_start::<L>(ring)
        &&& ring + L::READ_CURSOR_OFFSET + CURSOR_SIZE <= data_start::<L>(ring)
    } by {
        assert(ring == 0 || ring == total);
    }
}

/// Behind the start of a cache line, an offset counts its own lines.
proof fn lemma_line_of(base: int, offset: int)
    requires
        0 <= base,
        0 <= offset,
        base % 64 == 0,
    ensures
        (base + offset) / 64 == base / 64 + offset / 64,
{
    assert(base == 64 * (base / 64));
    assert(offset == 64 * (offset / 64) + offset % 64);
    assert(base + offset == 64 * (base / 64 + offset / 64) + offset % 64);
}

/// The cursors of a padded ring never share a cache line, in neither ring.
pub proof fn law_padded_cursors_have_own_cache_lines<L: RingLayout>(role: Role)
    requires
        L::Header::has_own_lines(),
    ensures
        cache_line(write_ring::<L>(role) + L::WRITE_CURSOR_OFFSET) != cache_line(
            write_ring::<L>(role) + L::READ_CURSOR_OFFSET,
        ),
        cache_line(read_ring::<L>(role) + L::WRITE_CURSOR_OFFSET) != cache_line(
            read_ring::<L>(role) + L::READ_CURSOR_OFFSET,
        ),
{
    L::law_layout_is_sound();
    let (w, r) = (L::WRITE_CURSOR_OFFSET as int, L::READ_CURSOR_OFFSET as int);
    let total = ring_total::<L>();
    assert(total % 64 == 0) by {
        assert(L::HEADER_SIZE as int % 64 == 0);
        assert(RING_DATA_SIZE == 64 * 262144);
    }
    assert(w / 64 != r / 64);
    lemma_line_of(0, w);
    lemma_line_of(0, r);
    lemma_line_of(total, w);
    lemma_line_of(total, r);
}

/// The cursors of a compact ring share a cache line, in both rings.
pub proof fn law_compact_cursors_share_a_cache_line(role: Role)
    ensures
        cache_line(write_ring::<CompactLayout>(role) + CompactLayout::WRITE_CURSOR_OFFSET)
            == cache_line(write_ring::<CompactLayout>(role) + CompactLayout::READ_CURSOR_OFFSET),
        cache_line(read_ring::<CompactLayout>(role) + CompactLayout::WRITE_CURSOR_OFFSET)
            == cache_line(read_ring::<CompactLayout>(role) + CompactLayout::READ_CURSOR_OFFSET),
{
    CompactLayout::law_layout_is_sound();
}

/// Sending changes the data of the ring that the sender writes and nothing else in the shared
/// memory: no cursor, and nothing in the other ring.
pub proof fn law_send_changes_only_its_data<L: RingLayout>(
    mem: Seq<u8>,
    role: Role,
    cursor: int,
    data: Seq<u8>,
)
    ensures
        ring_written(
            mem,
            data_start::<L>(write_ring::<L>(role)),
            RING_DATA_SIZE as int,
            cursor,
            data,
        ).len() == mem.len(),
        forall|p: int|
            0 <= p < mem.len() && !(data_start::<L>(write_ring::<L>(role)) <= p < data_start::<L>(
                write_ring::<L>(role),
            ) + RING_DATA_SIZE) ==> #[trigger] ring_written(
                mem,
                data_start::<L>(write_ring::<L>(role)),
                RING_DATA_SIZE as int,
                cursor,
                data,
            )[p] == mem[p],
{
    law_write_stays_in_ring(
        mem,
        data_start::<L>(write_ring::<L>(role)),
        RING_DATA_SIZE as int,
        cursor,
        data,
    );
}

/// A message that one end sends joins the messages that wait for the other end, as the last
/// one. The messages that wait for the sender stay as they are.
pub proof fn law_send_reaches_peer<L: RingLayout>(
    mem: Seq<u8>,
    role: Role,
    outgoing: L::Header,
    outbox: Seq<Seq<u8>>,
    incoming: L::Header,
    inbox: Seq<Seq<u8>>,
    message: Seq<u8>,
)
    requires
        shm_total::<L>() <= mem.len(),
        ring_holds(
            mem,
            data_start::<L>(read_ring::<L>(peer(role))),
            RING_DATA_SIZE as int,
            outgoing.written() as int,
            outgoing.consumed() as int,
            outbox,
        ),
        ring_holds(
            mem,
            data_start::<L>(read_ring::<L>(role)),
            RING_DATA_SIZE as int,
            incoming.written() as int,
            incoming.consumed() as int,
            inbox,
        ),
        RING_DATA_SIZE - used(&outgoing) >= MSG_HEADER_SIZE + message.len(),
    ensures
        ({
            let after = ring_written(
                mem,
                data_start::<L>(write_ring::<L>(role)),
                RING_DATA_SIZE as int,
                outgoing.written() as int,
                frame(message),
            );
            &&& ring_holds(
                after,
                data_start::<L>(read_ring::<L>(peer(role))),
                RING_DATA_SIZE as int,
                outgoing.written() + MSG_HEADER_SIZE + message.len(),
                outgoing.consumed() as int,
                outbox.push(message),
            )
            &&& ring_holds(
                after,
                data_start::<L>(read_ring::<L>(role)),
                RING_DATA_SIZE as int,
                incoming.written() as int,
                incoming.consumed() as int,
                inbox,
            )
        }),
{
    let size = RING_DATA_SIZE as int;
    let start = data_start::<L>(write_ring::<L>(role));
    let other = data_start::<L>(read_ring::<L>(role));
    let after = ring_written(mem, start, size, outgoing.written() as int, frame(message));
    law_send_appends(
        mem,
        start,
        size,
        outgoing.written() as int,
        outgoing.consumed() as int,
        outbox,
        message,
    );
    let (w, c) = (incoming.written() as int, incoming.consumed() as int);
    assert forall|i: int| 0 <= i < w - c implies #[trigger] after[other + (c + i) % size]
        == mem[other + (c + i) % size] by {
        lemma_mod_bound(c + i, size);
    }
    assert(ring_slice(after, other, size, c, w - c) =~= ring_slice(mem, other, size, c, w - c));
}

/// The end for which messages wait finds the oldest of them: `recv_length` sees its length,
/// and `recv_step` finds all of it and leaves the others waiting.
pub proof fn law_receive_takes_oldest<L: RingLayout>(
    mem: Seq<u8>,
    role: Role,
    incoming: L::Header,
    inbox: Seq<Seq<u8>>,
)
    requires
        inbox.len() > 0,
        ring_holds(
            mem,
            data_start::<L>(read_ring::<L>(role)),
            RING_DATA_SIZE as int,
            incoming.written() as int,
            incoming.consumed() as int,
            inbox,
        ),
    ensures
        used(&incoming) >= MSG_HEADER_SIZE + inbox[0].len(),
        prefix_value(
            ring_slice(
                mem,
                data_start::<L>(read_ring::<L>(role)),
                RING_DATA_SIZE as int,
                incoming.consumed() as int,
                MSG_HEADER_SIZE as int,
            ),
        ) == inbox[0].len(),
        forall|n: int|
            0 <= n <= inbox[0].len() ==> #[trigger] ring_slice(
                mem,
                data_start::<L>(read_ring::<L>(role)),
                RING_DATA_SIZE as int,
                incoming.consumed() + MSG_HEADER_SIZE,
                n,
            ) == inbox[0].take(n),
        ring_holds(
            mem,
            data_start::<L>(read_ring::<L>(role)),
            RING_DATA_SIZE as int,
            incoming.written() as int,
            incoming.consumed() + MSG_HEADER_SIZE + inbox[0].len(),
            inbox.drop_first(),
        ),
{
    let size = RING_DATA_SIZE as int;
    let start = data_start::<L>(read_ring::<L>(role));
    let consumed = incoming.consumed() as int;
    law_receive_takes_first(mem, start, size, incoming.written() as int, consumed, inbox);
    let len = inbox[0].len() as int;
    assert forall|n: int| 0 <= n <= len implies #[trigger] ring_slice(
        mem,
        start,
        size,
        consumed + MSG_HEADER_SIZE,
        n,
    ) == inbox[0].take(n) by {
        lemma_slice_splits(mem, start, size, consumed + MSG_HEADER_SIZE, n, len - n);
        assert(ring_slice(mem, start, size, consumed + MSG_HEADER_SIZE, n) =~= ring_slice(
            mem,
            start,
            size,
            consumed + MSG_HEADER_SIZE,
            len,
        ).take(n));
    }
}

} // verus!
