//! Where a shared memory keeps its rings and their cursors.

use vstd::prelude::*;

verus! {

/// The two cursors of a ring, as they were seen at one moment. Both count bytes since the ring
/// was made.
pub trait RingHeader: Sized {
    /// Bytes written so far.
    spec fn written(&self) -> u64;

    /// Bytes read so far.
    spec fn consumed(&self) -> u64;

    /// Whether each cursor has a cache line of its own.
    spec fn has_own_lines() -> bool;

    /// Puts the values of two cursors together.
    fn observe(write_cursor: u64, read_cursor: u64) -> (header: Self)
        ensures
            header.written() == write_cursor,
            header.consumed() == read_cursor,
    ;

    fn write_cursor(&self) -> (cursor: u64)
        ensures
            cursor == self.written(),
    ;

    fn read_cursor(&self) -> (cursor: u64)
        ensures
            cursor == self.consumed(),
    ;
}

/// The reader is not ahead of the writer.
pub open spec fn ordered<H: RingHeader>(header: &H) -> bool {
    header.consumed() <= header.written()
}

/// The bytes that wait for the reader.
pub open spec fn used<H: RingHeader>(header: &H) -> int {
    header.written() - header.consumed()
}

/// A cursor that has a cache line of 64 bytes to itself.
#[derive(Debug, Clone, Copy, PartialEq, Eq, Structural)]
pub struct CacheLineCursor {
    pub value: u64,
}

/// The cursors of a padded ring.
#[derive(Debug, Clone, Copy, PartialEq, Eq, Structural)]
pub struct PaddedHeader {
    pub write_cursor: CacheLineCursor,
    pub read_cursor: CacheLineCursor,
}

impl RingHeader for PaddedHeader {
    open spec fn written(&self) -> u64 {
        self.write_cursor.value
    }

    open spec fn consumed(&self) -> u64 {
        self.read_cursor.value
    }

    open spec fn has_own_lines() -> bool {
        true
    }

    fn observe(write_cursor: u64, read_cursor: u64) -> (header: Self) {
        PaddedHeader {
            write_cursor: CacheLineCursor { value: write_cursor },
            read_cursor: CacheLineCursor { value: read_cursor },
        }
    }

    fn write_cursor(&self) -> (cursor: u64) {
        self.write_cursor.value
    }

    fn read_cursor(&self) -> (cursor: u64) {
        self.read_cursor.value
    }
}

/// The cursors of a compact ring.
#[derive(Debug, Clone, Copy, PartialEq, Eq, Structural)]
pub struct CompactHeader {
    pub write_cursor: u64,
    pub read_cursor: u64,
}

impl RingHeader for CompactHeader {
    open spec fn written(&self) -> u64 {
        self.write_cursor
    }

    open spec fn consumed(&self) -> u64 {
        self.read_cursor
    }

    open spec fn has_own_lines() -> bool {
        false
    }

    fn observe(write_cursor: u64, read_cursor: u64) -> (header: Self) {
        CompactHeader { write_cursor, read_cursor }
    }

    fn write_cursor(&self) -> (cursor: u64) {
        self.write_cursor
    }

    fn read_cursor(&self) -> (cursor: u64) {
        self.read_cursor
    }
}

/// The bytes of data in one ring. Rings of 64 MiB were slower, for want of cache locality.
pub const RING_DATA_SIZE: usize = 16777216;

/// The bytes of one cursor.
pub const CURSOR_SIZE: usize = 8;

/// The bytes of a cache line.
pub const CACHE_LINE_SIZE: usize = 64;

/// The longest message that a layout may put together in a frame of its own before it copies
/// it into the ring.
pub const MAX_INLINE_FRAME: usize = 8192;

/// How a ring's header is laid out, and how messages are copied into the ring behind it.
pub trait RingLayout: Send + 'static {
    /// The header's cursors.
    type Header: RingHeader;

    /// Bytes of the header. The ring's data follows.
    const HEADER_SIZE: usize;

    /// Where the write cursor lies in the header.
    const WRITE_CURSOR_OFFSET: usize;

    /// Where the read cursor lies in the header.
    const READ_CURSOR_OFFSET: usize;

    /// The name to print in reports.
    const LABEL: &'static str;

    /// Payloads up to this length are joined with their length prefix and copied at once. With
    /// 0, prefix and payload are always copied one after the other.
    const INLINE_FRAME_THRESHOLD: usize;

    /// Whether a joined frame takes up only the message's own bytes. Otherwise a frame for the
    /// longest message is cleared first.
    const USE_UNINIT_FRAME: bool;

    /// Both cursors lie in the header, apart from each other and aligned as eight-byte words
    /// in both rings, on lines of their own if the header says so; two rings fit in memory; a
    /// joined frame never outgrows its buffer.
    proof fn law_layout_is_sound()
        ensures
            Self::WRITE_CURSOR_OFFSET + CURSOR_SIZE <= Self::HEADER_SIZE,
            Self::READ_CURSOR_OFFSET + CURSOR_SIZE <= Self::HEADER_SIZE,
            Self::WRITE_CURSOR_OFFSET + CURSOR_SIZE <= Self::READ_CURSOR_OFFSET
                || Self::READ_CURSOR_OFFSET + CURSOR_SIZE <= Self::WRITE_CURSOR_OFFSET,
            Self::WRITE_CURSOR_OFFSET % CURSOR_SIZE == 0,
            Self::READ_CURSOR_OFFSET % CURSOR_SIZE == 0,
            Self::HEADER_SIZE % CURSOR_SIZE == 0,
            Self::Header::has_own_lines() ==> {
                &&& Self::HEADER_SIZE % CACHE_LINE_SIZE == 0
                &&& Self::WRITE_CURSOR_OFFSET / CACHE_LINE_SIZE != Self::READ_CURSOR_OFFSET
                    / CACHE_LINE_SIZE
            },
            2 * (Self::HEADER_SIZE + RING_DATA_SIZE) <= usize::MAX,
            Self::INLINE_FRAME_THRESHOLD <= MAX_INLINE_FRAME,
    ;
}

/// Each cursor on a cache line of its own, so that a write to one does not invalidate the other
/// core's copy of the other.
///
/// ```text
/// offset 0:      write cursor
/// offset 8-63:   padding
/// offset 64:     read cursor
/// offset 72-127: padding
/// offset 128:    data
/// ```
pub struct PaddedLayout;

impl RingLayout for PaddedLayout {
    type Header = PaddedHeader;

    const HEADER_SIZE: usize = 128;

    const WRITE_CURSOR_OFFSET: usize = 0;

    const READ_CURSOR_OFFSET: usize = 64;

    const LABEL: &'static str = "SharedMem";

    const INLINE_FRAME_THRESHOLD: usize = 0;

    const USE_UNINIT_FRAME: bool = false;

    proof fn law_layout_is_sound()
        ensures
            Self::HEADER_SIZE == 128,
            Self::WRITE_CURSOR_OFFSET == 0,
            Self::READ_CURSOR_OFFSET == 64,
            Self::LABEL@ == "SharedMem"@,
            Self::INLINE_FRAME_THRESHOLD == 0,
            Self::USE_UNINIT_FRAME == false,
    {
    }
}

/// Both cursors side by side, on one cache line.
///
/// ```text
/// offset 0:  write cursor
/// offset 8:  read cursor
/// offset 16: data
/// ```
pub struct CompactLayout;

impl RingLayout for CompactLayout {
    type Header = CompactHeader;

    const HEADER_SIZE: usize = 16;

    const WRITE_CURSOR_OFFSET: usize = 0;

    const READ_CURSOR_OFFSET: usize = 8;

    const LABEL: &'static str = "SharedMem(compact)";

    const INLINE_FRAME_THRESHOLD: usize = 0;

    const USE_UNINIT_FRAME: bool = false;

    proof fn law_layout_is_sound()
        ensures
            Self::HEADER_SIZE == 16,
            Self::WRITE_CURSOR_OFFSET == 0,
            Self::READ_CURSOR_OFFSET == 8,
            Self::LABEL@ == "SharedMem(compact)"@,
            Self::INLINE_FRAME_THRESHOLD == 0,
            Self::USE_UNINIT_FRAME == false,
    {
    }
}

/// Padded; payloads up to 256 bytes are joined with their prefix in a cleared frame.
pub struct PaddedInlineLayout;

impl RingLayout for PaddedInlineLayout {
    type Header = PaddedHeader;

    const HEADER_SIZE: usize = 128;

    const WRITE_CURSOR_OFFSET: usize = 0;

    const READ_CURSOR_OFFSET: usize = 64;

    const LABEL: &'static str = "SharedMem(inline256)";

    const INLINE_FRAME_THRESHOLD: usize = 256;

    const USE_UNINIT_FRAME: bool = false;

    proof fn law_layout_is_sound()
        ensures
            Self::HEADER_SIZE == 128,
            Self::WRITE_CURSOR_OFFSET == 0,
            Self::READ_CURSOR_OFFSET == 64,
            Self::LABEL@ == "SharedMem(inline256)"@,
            Self::INLINE_FRAME_THRESHOLD == 256,
            Self::USE_UNINIT_FRAME == false,
    {
    }
}

/// Padded; payloads up to 512 bytes are joined with their prefix in a cleared frame.
pub struct PaddedInline512Layout;

impl RingLayout for PaddedInline512Layout {
    type Header = PaddedHeader;

    const HEADER_SIZE: usize = 128;

    const WRITE_CURSOR_OFFSET: usize = 0;

    const READ_CURSOR_OFFSET: usize = 64;

    const LABEL: &'static str = "SharedMem(inline512)";

    const INLINE_FRAME_THRESHOLD: usize = 512;

    const USE_UNINIT_FRAME: bool = false;

    proof fn law_layout_is_sound()
        ensures
            Self::HEADER_SIZE == 128,
            Self::WRITE_CURSOR_OFFSET == 0,
            Self::READ_CURSOR_OFFSET == 64,
            Self::LABEL@ == "SharedMem(inline512)"@,
            Self::INLINE_FRAME_THRESHOLD == 512,
            Self::USE_UNINIT_FRAME == false,
    {
    }
}

/// Padded; payloads up to 1024 bytes are joined with their prefix in a cleared frame.
pub struct PaddedInline1kLayout;

impl RingLayout for PaddedInline1kLayout {
    type Header = PaddedHeader;

    const HEADER_SIZE: usize = 128;

    const WRITE_CURSOR_OFFSET: usize = 0;

    const READ_CURSOR_OFFSET: usize = 64;

    const LABEL: &'static str = "SharedMem(inline1k)";

    const INLINE_FRAME_THRESHOLD: usize = 1024;

    const USE_UNINIT_FRAME: bool = false;

    proof fn law_layout_is_sound()
        ensures
            Self::HEADER_SIZE == 128,
            Self::WRITE_CURSOR_OFFSET == 0,
            Self::READ_CURSOR_OFFSET == 64,
            Self::LABEL@ == "SharedMem(inline1k)"@,
            Self::INLINE_FRAME_THRESHOLD == 1024,
            Self::USE_UNINIT_FRAME == false,
    {
    }
}

/// Padded; payloads up to 2048 bytes are joined with their prefix in a cleared frame.
pub struct PaddedInline2kLayout;

impl RingLayout for PaddedInline2kLayout {
    type Header = PaddedHeader;

    const HEADER_SIZE: usize = 128;

    const WRITE_CURSOR_OFFSET: usize = 0;

    const READ_CURSOR_OFFSET: usize = 64;

    const LABEL: &'static str = "SharedMem(inline2k)";

    const INLINE_FRAME_THRESHOLD: usize = 2048;

    const USE_UNINIT_FRAME: bool = false;

    proof fn law_layout_is_sound()
        ensures
            Self::HEADER_SIZE == 128,
            Self::WRITE_CURSOR_OFFSET == 0,
            Self::READ_CURSOR_OFFSET == 64,
            Self::LABEL@ == "SharedMem(inline2k)"@,
            Self::INLINE_FRAME_THRESHOLD == 2048,
            Self::USE_UNINIT_FRAME == false,
    {
    }
}

/// Padded; payloads up to 4096 bytes are joined with their prefix in a cleared frame.
pub struct PaddedInline4kLayout;

impl RingLayout for PaddedInline4kLayout {
    type Header = PaddedHeader;

    const HEADER_SIZE: usize = 128;

    const WRITE_CURSOR_OFFSET: usize = 0;

    const READ_CURSOR_OFFSET: usize = 64;

    const LABEL: &'static str = "SharedMem(inline4k)";

    const INLINE_FRAME_THRESHOLD: usize = 4096;

    const USE_UNINIT_FRAME: bool = false;

    proof fn law_layout_is_sound()
        ensures
            Self::HEADER_SIZE == 128,
            Self::WRITE_CURSOR_OFFSET == 0,
            Self::READ_CURSOR_OFFSET == 64,
            Self::LABEL@ == "SharedMem(inline4k)"@,
            Self::INLINE_FRAME_THRESHOLD == 4096,
            Self::USE_UNINIT_FRAME == false,
    {
    }
}

/// Padded; payloads up to 8192 bytes are joined with their prefix in a cleared frame.
pub struct PaddedInline8kLayout;

impl RingLayout for PaddedInline8kLayout {
    type Header = PaddedHeader;

    const HEADER_SIZE: usize = 128;

    const WRITE_CURSOR_OFFSET: usize = 0;

    const READ_CURSOR_OFFSET: usize = 64;

    const LABEL: &'static str = "SharedMem(inline8k)";

    const INLINE_FRAME_THRESHOLD: usize = 8192;

    const USE_UNINIT_FRAME: bool = false;

    proof fn law_layout_is_sound()
        ensures
            Self::HEADER_SIZE == 128,
            Self::WRITE_CURSOR_OFFSET == 0,
            Self::READ_CURSOR_OFFSET == 64,
            Self::LABEL@ == "SharedMem(inline8k)"@,
            Self::INLINE_FRAME_THRESHOLD == 8192,
            Self::USE_UNINIT_FRAME == false,
    {
    }
}

/// Padded; payloads up to 256 bytes are joined with their prefix in a frame of their own size.
pub struct PaddedUninitLayout;

impl RingLayout for PaddedUninitLayout {
    type Header = PaddedHeader;

    const HEADER_SIZE: usize = 128;

    const WRITE_CURSOR_OFFSET: usize = 0;

    const READ_CURSOR_OFFSET: usize = 64;

    const LABEL: &'static str = "SharedMem(uninit256)";

    const INLINE_FRAME_THRESHOLD: usize = 256;

    const USE_UNINIT_FRAME: bool = true;

    proof fn law_layout_is_sound()
        ensures
            Self::HEADER_SIZE == 128,
            Self::WRITE_CURSOR_OFFSET == 0,
            Self::READ_CURSOR_OFFSET == 64,
            Self::LABEL@ == "SharedMem(uninit256)"@,
            Self::INLINE_FRAME_THRESHOLD == 256,
            Self::USE_UNINIT_FRAME == true,
    {
    }
}

/// Padded; payloads up to 512 bytes are joined with their prefix in a frame of their own size.
pub struct PaddedUninit512Layout;

impl RingLayout for PaddedUninit512Layout {
    type Header = PaddedHeader;

    const HEADER_SIZE: usize = 128;

    const WRITE_CURSOR_OFFSET: usize = 0;

    const READ_CURSOR_OFFSET: usize = 64;

    const LABEL: &'static str = "SharedMem(uninit512)";

    const INLINE_FRAME_THRESHOLD: usize = 512;

    const USE_UNINIT_FRAME: bool = true;

    proof fn law_layout_is_sound()
        ensures
            Self::HEADER_SIZE == 128,
            Self::WRITE_CURSOR_OFFSET == 0,
            Self::READ_CURSOR_OFFSET == 64,
            Self::LABEL@ == "SharedMem(uninit512)"@,
            Self::INLINE_FRAME_THRESHOLD == 512,
            Self::USE_UNINIT_FRAME == true,
    {
    }
}

/// Padded; payloads up to 1024 bytes are joined with their prefix in a frame of their own size.
pub struct PaddedUninit1kLayout;

impl RingLayout for PaddedUninit1kLayout {
    type Header = PaddedHeader;

    const HEADER_SIZE: usize = 128;

    const WRITE_CURSOR_OFFSET: usize = 0;

    const READ_CURSOR_OFFSET: usize = 64;

    const LABEL: &'static str = "SharedMem(uninit1k)";

    const INLINE_FRAME_THRESHOLD: usize = 1024;

    const USE_UNINIT_FRAME: bool = true;

    proof fn law_layout_is_sound()
        ensures
            Self::HEADER_SIZE == 128,
            Self::WRITE_CURSOR_OFFSET == 0,
            Self::READ_CURSOR_OFFSET == 64,
            Self::LABEL@ == "SharedMem(uninit1k)"@,
            Self::INLINE_FRAME_THRESHOLD == 1024,
            Self::USE_UNINIT_FRAME == true,
    {
    }
}

/// Padded; payloads up to 2048 bytes are joined with their prefix in a frame of their own size.
pub struct PaddedUninit2kLayout;

impl RingLayout for PaddedUninit2kLayout {
    type Header = PaddedHeader;

    const HEADER_SIZE: usize = 128;

    const WRITE_CURSOR_OFFSET: usize = 0;

    const READ_CURSOR_OFFSET: usize = 64;

    const LABEL: &'static str = "SharedMem(uninit2k)";

    const INLINE_FRAME_THRESHOLD: usize = 2048;

    const USE_UNINIT_FRAME: bool = true;

    proof fn law_layout_is_sound()
        ensures
            Self::HEADER_SIZE == 128,
            Self::WRITE_CURSOR_OFFSET == 0,
            Self::READ_CURSOR_OFFSET == 64,
            Self::LABEL@ == "SharedMem(uninit2k)"@,
            Self::INLINE_FRAME_THRESHOLD == 2048,
            Self::USE_UNINIT_FRAME == true,
    {
    }
}

/// Padded; payloads up to 4096 bytes are joined with their prefix in a frame of their own size.
pub struct PaddedUninit4kLayout;

impl RingLayout for PaddedUninit4kLayout {
    type Header = PaddedHeader;

    const HEADER_SIZE: usize = 128;

    const WRITE_CURSOR_OFFSET: usize = 0;

    const READ_CURSOR_OFFSET: usize = 64;

    const LABEL: &'static str = "SharedMem(uninit4k)";

    const INLINE_FRAME_THRESHOLD: usize = 4096;

    const USE_UNINIT_FRAME: bool = true;

    proof fn law_layout_is_sound()
        ensures
            Self::HEADER_SIZE == 128,
            Self::WRITE_CURSOR_OFFSET == 0,
            Self::READ_CURSOR_OFFSET == 64,
            Self::LABEL@ == "SharedMem(uninit4k)"@,
            Self::INLINE_FRAME_THRESHOLD == 4096,
            Self::USE_UNINIT_FRAME == true,
    {
    }
}

/// Padded; payloads up to 8192 bytes are joined with their prefix in a frame of their own size.
pub struct PaddedUninit8kLayout;

impl RingLayout for PaddedUninit8kLayout {
    type Header = PaddedHeader;

    const HEADER_SIZE: usize = 128;

    const WRITE_CURSOR_OFFSET: usize = 0;

    const READ_CURSOR_OFFSET: usize = 64;

    const LABEL: &'static str = "SharedMem(uninit8k)";

    const INLINE_FRAME_THRESHOLD: usize = 8192;

    const USE_UNINIT_FRAME: bool = true;

    proof fn law_layout_is_sound()
        ensures
            Self::HEADER_SIZE == 128,
            Self::WRITE_CURSOR_OFFSET == 0,
            Self::READ_CURSOR_OFFSET == 64,
            Self::LABEL@ == "SharedMem(uninit8k)"@,
            Self::INLINE_FRAME_THRESHOLD == 8192,
            Self::USE_UNINIT_FRAME == true,
    {
    }
}

/// Compact; payloads up to 1024 bytes are joined with their prefix in a frame of their own size.
pub struct CompactUninit1kLayout;

impl RingLayout for CompactUninit1kLayout {
    type Header = CompactHeader;

    const HEADER_SIZE: usize = 16;

    const WRITE_CURSOR_OFFSET: usize = 0;

    const READ_CURSOR_OFFSET: usize = 8;

    const LABEL: &'static str = "SharedMem[compact,(uninit1k)]";

    const INLINE_FRAME_THRESHOLD: usize = 1024;

    const USE_UNINIT_FRAME: bool = true;

    proof fn law_layout_is_sound()
        ensures
            Self::HEADER_SIZE == 16,
            Self::WRITE_CURSOR_OFFSET == 0,
            Self::READ_CURSOR_OFFSET == 8,
            Self::LABEL@ == "SharedMem[compact,(uninit1k)]"@,
            Self::INLINE_FRAME_THRESHOLD == 1024,
            Self::USE_UNINIT_FRAME == true,
    {
    }
}

/// Where each layout puts the cursors and the data: the write cursor first; in a padded header
/// of 128 bytes the read cursor one cache line further on, in a compact one of 16 bytes right
/// behind it.
pub proof fn law_layout_places()
    ensures
        PaddedLayout::HEADER_SIZE == 128,
        PaddedLayout::WRITE_CURSOR_OFFSET == 0,
        PaddedLayout::READ_CURSOR_OFFSET == 64,
        CompactLayout::HEADER_SIZE == 16,
        CompactLayout::WRITE_CURSOR_OFFSET == 0,
        CompactLayout::READ_CURSOR_OFFSET == 8,
        PaddedInlineLayout::HEADER_SIZE == 128,
        PaddedInlineLayout::WRITE_CURSOR_OFFSET == 0,
        PaddedInlineLayout::READ_CURSOR_OFFSET == 64,
        PaddedInline512Layout::HEADER_SIZE == 128,
        PaddedInline512Layout::WRITE_CURSOR_OFFSET == 0,
        PaddedInline512Layout::READ_CURSOR_OFFSET == 64,
        PaddedInline1kLayout::HEADER_SIZE == 128,
        PaddedInline1kLayout::WRITE_CURSOR_OFFSET == 0,
        PaddedInline1kLayout::READ_CURSOR_OFFSET == 64,
        PaddedInline2kLayout::HEADER_SIZE == 128,
        PaddedInline2kLayout::WRITE_CURSOR_OFFSET == 0,
        PaddedInline2kLayout::READ_CURSOR_OFFSET == 64,
        PaddedInline4kLayout::HEADER_SIZE == 128,
        PaddedInline4kLayout::WRITE_CURSOR_OFFSET == 0,
        PaddedInline4kLayout::READ_CURSOR_OFFSET == 64,
        PaddedInline8kLayout::HEADER_SIZE == 128,
        PaddedInline8kLayout::WRITE_CURSOR_OFFSET == 0,
        PaddedInline8kLayout::READ_CURSOR_OFFSET == 64,
        PaddedUninitLayout::HEADER_SIZE == 128,
        PaddedUninitLayout::WRITE_CURSOR_OFFSET == 0,
        PaddedUninitLayout::READ_CURSOR_OFFSET == 64,
        PaddedUninit512Layout::HEADER_SIZE == 128,
        PaddedUninit512Layout::WRITE_CURSOR_OFFSET == 0,
        PaddedUninit512Layout::READ_CURSOR_OFFSET == 64,
        PaddedUninit1kLayout::HEADER_SIZE == 128,
        PaddedUninit1kLayout::WRITE_CURSOR_OFFSET == 0,
        PaddedUninit1kLayout::READ_CURSOR_OFFSET == 64,
        PaddedUninit2kLayout::HEADER_SIZE == 128,
        PaddedUninit2kLayout::WRITE_CURSOR_OFFSET == 0,
        PaddedUninit2kLayout::READ_CURSOR_OFFSET == 64,
        PaddedUninit4kLayout::HEADER_SIZE == 128,
        PaddedUninit4kLayout::WRITE_CURSOR_OFFSET == 0,
        PaddedUninit4kLayout::READ_CURSOR_OFFSET == 64,
        PaddedUninit8kLayout::HEADER_SIZE == 128,
        PaddedUninit8kLayout::WRITE_CURSOR_OFFSET == 0,
        PaddedUninit8kLayout::READ_CURSOR_OFFSET == 64,
        CompactUninit1kLayout::HEADER_SIZE == 16,
        CompactUninit1kLayout::WRITE_CURSOR_OFFSET == 0,
        CompactUninit1kLayout::READ_CURSOR_OFFSET == 8,
{
    PaddedLayout::law_layout_is_sound();
    CompactLayout::law_layout_is_sound();
    PaddedInlineLayout::law_layout_is_sound();
    PaddedInline512Layout::law_layout_is_sound();
    PaddedInline1kLayout::law_layout_is_sound();
    PaddedInline2kLayout::law_layout_is_sound();
    PaddedInline4kLayout::law_layout_is_sound();
    PaddedInline8kLayout::law_layout_is_sound();
    PaddedUninitLayout::law_layout_is_sound();
    PaddedUninit512Layout::law_layout_is_sound();
    PaddedUninit1kLayout::law_layout_is_sound();
    PaddedUninit2kLayout::law_layout_is_sound();
    PaddedUninit4kLayout::law_layout_is_sound();
    PaddedUninit8kLayout::law_layout_is_sound();
    CompactUninit1kLayout::law_layout_is_sound();
}

/// Up to which length each layout joins a message with its prefix, and whether in a frame of
/// the message's own size.
pub proof fn law_layout_frames()
    ensures
        PaddedLayout::INLINE_FRAME_THRESHOLD == 0,
        !PaddedLayout::USE_UNINIT_FRAME,
        CompactLayout::INLINE_FRAME_THRESHOLD == 0,
        !CompactLayout::USE_UNINIT_FRAME,
        PaddedInlineLayout::INLINE_FRAME_THRESHOLD == 256,
        !PaddedInlineLayout::USE_UNINIT_FRAME,
        PaddedInline512Layout::INLINE_FRAME_THRESHOLD == 512,
        !PaddedInline512Layout::USE_UNINIT_FRAME,
        PaddedInline1kLayout::INLINE_FRAME_THRESHOLD == 1024,
        !PaddedInline1kLayout::USE_UNINIT_FRAME,
        PaddedInline2kLayout::INLINE_FRAME_THRESHOLD == 2048,
        !PaddedInline2kLayout::USE_UNINIT_FRAME,
        PaddedInline4kLayout::INLINE_FRAME_THRESHOLD == 4096,
        !PaddedInline4kLayout::USE_UNINIT_FRAME,
        PaddedInline8kLayout::INLINE_FRAME_THRESHOLD == 8192,
        !PaddedInline8kLayout::USE_UNINIT_FRAME,
        PaddedUninitLayout::INLINE_FRAME_THRESHOLD == 256,
        PaddedUninitLayout::USE_UNINIT_FRAME,
        PaddedUninit512Layout::INLINE_FRAME_THRESHOLD == 512,
        PaddedUninit512Layout::USE_UNINIT_FRAME,
        PaddedUninit1kLayout::INLINE_FRAME_THRESHOLD == 1024,
        PaddedUninit1kLayout::USE_UNINIT_FRAME,
        PaddedUninit2kLayout::INLINE_FRAME_THRESHOLD == 2048,
        PaddedUninit2kLayout::USE_UNINIT_FRAME,
        PaddedUninit4kLayout::INLINE_FRAME_THRESHOLD == 4096,
        PaddedUninit4kLayout::USE_UNINIT_FRAME,
        PaddedUninit8kLayout::INLINE_FRAME_THRESHOLD == 8192,
        PaddedUninit8kLayout::USE_UNINIT_FRAME,
        CompactUninit1kLayout::INLINE_FRAME_THRESHOLD == 1024,
        CompactUninit1kLayout::USE_UNINIT_FRAME,
{
    PaddedLayout::law_layout_is_sound();
    CompactLayout::law_layout_is_sound();
    PaddedInlineLayout::law_layout_is_sound();
    PaddedInline512Layout::law_layout_is_sound();
    PaddedInline1kLayout::law_layout_is_sound();
    PaddedInline2kLayout::law_layout_is_sound();
    PaddedInline4kLayout::law_layout_is_sound();
    PaddedInline8kLayout::law_layout_is_sound();
    PaddedUninitLayout::law_layout_is_sound();
    PaddedUninit512Layout::law_layout_is_sound();
    PaddedUninit1kLayout::law_layout_is_sound();
    PaddedUninit2kLayout::law_layout_is_sound();
    PaddedUninit4kLayout::law_layout_is_sound();
    PaddedUninit8kLayout::law_layout_is_sound();
    CompactUninit1kLayout::law_layout_is_sound();
}

/// What each layout is called in reports.
pub proof fn law_layout_labels()
    ensures
        PaddedLayout::LABEL@ == "SharedMem"@,
        CompactLayout::LABEL@ == "SharedMem(compact)"@,
        PaddedInlineLayout::LABEL@ == "SharedMem(inline256)"@,
        PaddedInline512Layout::LABEL@ == "SharedMem(inline512)"@,
        PaddedInline1kLayout::LABEL@ == "SharedMem(inline1k)"@,
        PaddedInline2kLayout::LABEL@ == "SharedMem(inline2k)"@,
        PaddedInline4kLayout::LABEL@ == "SharedMem(inline4k)"@,
        PaddedInline8kLayout::LABEL@ == "SharedMem(inline8k)"@,
        PaddedUninitLayout::LABEL@ == "SharedMem(uninit256)"@,
        PaddedUninit512Layout::LABEL@ == "SharedMem(uninit512)"@,
        PaddedUninit1kLayout::LABEL@ == "SharedMem(uninit1k)"@,
        PaddedUninit2kLayout::LABEL@ == "SharedMem(uninit2k)"@,
        PaddedUninit4kLayout::LABEL@ == "SharedMem(uninit4k)"@,
        PaddedUninit8kLayout::LABEL@ == "SharedMem(uninit8k)"@,
        CompactUninit1kLayout::LABEL@ == "SharedMem[compact,(uninit1k)]"@,
{
    PaddedLayout::law_layout_is_sound();
    CompactLayout::law_layout_is_sound();
    PaddedInlineLayout::law_layout_is_sound();
    PaddedInline512Layout::law_layout_is_sound();
    PaddedInline1kLayout::law_layout_is_sound();
    PaddedInline2kLayout::law_layout_is_sound();
    PaddedInline4kLayout::law_layout_is_sound();
    PaddedInline8kLayout::law_layout_is_sound();
    PaddedUninitLayout::law_layout_is_sound();
    PaddedUninit512Layout::law_layout_is_sound();
    PaddedUninit1kLayout::law_layout_is_sound();
    PaddedUninit2kLayout::law_layout_is_sound();
    PaddedUninit4kLayout::law_layout_is_sound();
    PaddedUninit8kLayout::law_layout_is_sound();
    CompactUninit1kLayout::law_layout_is_sound();
}

/// A header holds the cursors that were observed, each as itself.
pub proof fn law_headers_hold_cursors(
    written: u64,
    consumed: u64,
    padded: PaddedHeader,
    compact: CompactHeader,
)
    requires
        call_ensures(PaddedHeader::observe, (written, consumed), padded),
        call_ensures(CompactHeader::observe, (written, consumed), compact),
    ensures
        padded.write_cursor.value == written,
        padded.read_cursor.value == consumed,
        compact.write_cursor == written,
        compact.read_cursor == consumed,
{
}

} // verus!
