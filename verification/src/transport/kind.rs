//! The transports by the names that a user gives them.

use vstd::prelude::*;

use crate::text::same_text;

verus! {

/// All transports that can be asked for.
#[derive(Debug, Clone, Copy, PartialEq, Eq, Structural)]
pub enum TransportKind {
    TcpSocket,
    WebSocket,
    UnixSocket,
    NamedPipe,
    SharedMem,
    SharedMemCompact,
    SharedMemCompactUninit1k,
    SharedMemInline,
    SharedMemInline512,
    SharedMemInline1k,
    SharedMemInline2k,
    SharedMemInline4k,
    SharedMemInline8k,
    SharedMemUninit,
    SharedMemUninit512,
    SharedMemUninit1k,
    SharedMemUninit2k,
    SharedMemUninit4k,
    SharedMemUninit8k,
}

/// What a user calls a transport.
pub open spec fn kind_name(kind: TransportKind) -> Seq<char> {
    match kind {
        TransportKind::TcpSocket => "tcp_socket"@,
        TransportKind::WebSocket => "websocket"@,
        TransportKind::UnixSocket => "unix_socket"@,
        TransportKind::NamedPipe => "named_pipe"@,
        TransportKind::SharedMem => "shared_mem"@,
        TransportKind::SharedMemCompact => "shared_mem_compact"@,
        TransportKind::SharedMemCompactUninit1k => "shared_mem_compact_uninit1k"@,
        TransportKind::SharedMemInline => "shared_mem_inline"@,
        TransportKind::SharedMemInline512 => "shared_mem_inline512"@,
        TransportKind::SharedMemInline1k => "shared_mem_inline1k"@,
        TransportKind::SharedMemInline2k => "shared_mem_inline2k"@,
        TransportKind::SharedMemInline4k => "shared_mem_inline4k"@,
        TransportKind::SharedMemInline8k => "shared_mem_inline8k"@,
        TransportKind::SharedMemUninit => "shared_mem_uninit"@,
        TransportKind::SharedMemUninit512 => "shared_mem_uninit512"@,
        TransportKind::SharedMemUninit1k => "shared_mem_uninit1k"@,
        TransportKind::SharedMemUninit2k => "shared_mem_uninit2k"@,
        TransportKind::SharedMemUninit4k => "shared_mem_uninit4k"@,
        TransportKind::SharedMemUninit8k => "shared_mem_uninit8k"@,
    }
}

impl TransportKind {
    /// What a user calls the transport.
    pub fn name(self) -> (name: &'static str)
        ensures
            name@ == kind_name(self),
    {
        match self {
            TransportKind::TcpSocket => "tcp_socket",
            TransportKind::WebSocket => "websocket",
            TransportKind::UnixSocket => "unix_socket",
            TransportKind::NamedPipe => "named_pipe",
            TransportKind::SharedMem => "shared_mem",
            TransportKind::SharedMemCompact => "shared_mem_compact",
            TransportKind::SharedMemCompactUninit1k => "shared_mem_compact_uninit1k",
            TransportKind::SharedMemInline => "shared_mem_inline",
            TransportKind::SharedMemInline512 => "shared_mem_inline512",
            TransportKind::SharedMemInline1k => "shared_mem_inline1k",
            TransportKind::SharedMemInline2k => "shared_mem_inline2k",
            TransportKind::SharedMemInline4k => "shared_mem_inline4k",
            TransportKind::SharedMemInline8k => "shared_mem_inline8k",
            TransportKind::SharedMemUninit => "shared_mem_uninit",
            TransportKind::SharedMemUninit512 => "shared_mem_uninit512",
            TransportKind::SharedMemUninit1k => "shared_mem_uninit1k",
            TransportKind::SharedMemUninit2k => "shared_mem_uninit2k",
            TransportKind::SharedMemUninit4k => "shared_mem_uninit4k",
            TransportKind::SharedMemUninit8k => "shared_mem_uninit8k",
        }
    }

    /// The transport that a user calls `name`, if there is one.
    pub fn parse(name: &str) -> (kind: Option<TransportKind>)
        ensures
            match kind {
                Some(kind) => kind_name(kind) == name@,
                None => forall|kind: TransportKind| #[trigger] kind_name(kind) != name@,
            },
    {
        if same_text(name, "tcp_socket") {
            Some(TransportKind::TcpSocket)
        } else if same_text(name, "websocket") {
            Some(TransportKind::WebSocket)
        } else if same_text(name, "unix_socket") {
            Some(TransportKind::UnixSocket)
        } else if same_text(name, "named_pipe") {
            Some(TransportKind::NamedPipe)
        } else if same_text(name, "shared_mem") {
            Some(TransportKind::SharedMem)
        } else if same_text(name, "shared_mem_compact") {
            Some(TransportKind::SharedMemCompact)
        } else if same_text(name, "shared_mem_compact_uninit1k") {
            Some(TransportKind::SharedMemCompactUninit1k)
        } else if same_text(name, "shared_mem_inline") {
            Some(TransportKind::SharedMemInline)
        } else if same_text(name, "shared_mem_inline512") {
            Some(TransportKind::SharedMemInline512)
        } else if same_text(name, "shared_mem_inline1k") {
            Some(TransportKind::SharedMemInline1k)
        } else if same_text(name, "shared_mem_inline2k") {
            Some(TransportKind::SharedMemInline2k)
        } else if same_text(name, "shared_mem_inline4k") {
            Some(TransportKind::SharedMemInline4k)
        } else if same_text(name, "shared_mem_inline8k") {
            Some(TransportKind::SharedMemInline8k)
        } else if same_text(name, "shared_mem_uninit") {
            Some(TransportKind::SharedMemUninit)
        } else if same_text(name, "shared_mem_uninit512") {
            Some(TransportKind::SharedMemUninit512)
        } else if same_text(name, "shared_mem_uninit1k") {
            Some(TransportKind::SharedMemUninit1k)
        } else if same_text(name, "shared_mem_uninit2k") {
            Some(TransportKind::SharedMemUninit2k)
        } else if same_text(name, "shared_mem_uninit4k") {
            Some(TransportKind::SharedMemUninit4k)
        } else if same_text(name, "shared_mem_uninit8k") {
            Some(TransportKind::SharedMemUninit8k)
        } else {
            None
        }
    }
}

/// No two transports share a name. So `parse` finds every transport by its name.
pub proof fn law_names_differ(left: TransportKind, right: TransportKind)
    ensures
        kind_name(left) == kind_name(right) <==> left == right,
{
    reveal_strlit("tcp_socket");
    reveal_strlit("websocket");
    reveal_strlit("unix_socket");
    reveal_strlit("named_pipe");
    reveal_strlit("shared_mem");
    reveal_strlit("shared_mem_compact");
    reveal_strlit("shared_mem_compact_uninit1k");
    reveal_strlit("shared_mem_inline");
    reveal_strlit("shared_mem_inline512");
    reveal_strlit("shared_mem_inline1k");
    reveal_strlit("shared_mem_inline2k");
    reveal_strlit("shared_mem_inline4k");
    reveal_strlit("shared_mem_inline8k");
    reveal_strlit("shared_mem_uninit");
    reveal_strlit("shared_mem_uninit512");
    reveal_strlit("shared_mem_uninit1k");
    reveal_strlit("shared_mem_uninit2k");
    reveal_strlit("shared_mem_uninit4k");
    reveal_strlit("shared_mem_uninit8k");
    let (one, two) = (kind_name(left), kind_name(right));
    if one == two {
        assert(one.len() == two.len());
        assert(one[0] == two[0]);
        assert(one[11] == two[11]);
        assert(one[17] == two[17]);
    }
}

/// Which name picks which transport: `parse` gives each transport for its own name and for no
/// other, and nothing for any other text.
pub proof fn law_parse_by_name(name: &str, kind: Option<TransportKind>)
    requires
        call_ensures(TransportKind::parse, (name,), kind),
    ensures
        kind == Some(TransportKind::TcpSocket) <==> name@ == "tcp_socket"@,
        kind == Some(TransportKind::WebSocket) <==> name@ == "websocket"@,
        kind == Some(TransportKind::UnixSocket) <==> name@ == "unix_socket"@,
        kind == Some(TransportKind::NamedPipe) <==> name@ == "named_pipe"@,
        kind == Some(TransportKind::SharedMem) <==> name@ == "shared_mem"@,
        kind == Some(TransportKind::SharedMemCompact) <==> name@ == "shared_mem_compact"@,
        kind == Some(TransportKind::SharedMemCompactUninit1k) <==> name@
            == "shared_mem_compact_uninit1k"@,
        kind == Some(TransportKind::SharedMemInline) <==> name@ == "shared_mem_inline"@,
        kind == Some(TransportKind::SharedMemInline512) <==> name@ == "shared_mem_inline512"@,
        kind == Some(TransportKind::SharedMemInline1k) <==> name@ == "shared_mem_inline1k"@,
        kind == Some(TransportKind::SharedMemInline2k) <==> name@ == "shared_mem_inline2k"@,
        kind == Some(TransportKind::SharedMemInline4k) <==> name@ == "shared_mem_inline4k"@,
        kind == Some(TransportKind::SharedMemInline8k) <==> name@ == "shared_mem_inline8k"@,
        kind == Some(TransportKind::SharedMemUninit) <==> name@ == "shared_mem_uninit"@,
        kind == Some(TransportKind::SharedMemUninit512) <==> name@ == "shared_mem_uninit512"@,
        kind == Some(TransportKind::SharedMemUninit1k) <==> name@ == "shared_mem_uninit1k"@,
        kind == Some(TransportKind::SharedMemUninit2k) <==> name@ == "shared_mem_uninit2k"@,
        kind == Some(TransportKind::SharedMemUninit4k) <==> name@ == "shared_mem_uninit4k"@,
        kind == Some(TransportKind::SharedMemUninit8k) <==> name@ == "shared_mem_uninit8k"@,
        kind is None <==> {
            &&& name@ != "tcp_socket"@
            &&& name@ != "websocket"@
            &&& name@ != "unix_socket"@
            &&& name@ != "named_pipe"@
            &&& name@ != "shared_mem"@
            &&& name@ != "shared_mem_compact"@
            &&& name@ != "shared_mem_compact_uninit1k"@
            &&& name@ != "shared_mem_inline"@
            &&& name@ != "shared_mem_inline512"@
            &&& name@ != "shared_mem_inline1k"@
            &&& name@ != "shared_mem_inline2k"@
            &&& name@ != "shared_mem_inline4k"@
            &&& name@ != "shared_mem_inline8k"@
            &&& name@ != "shared_mem_uninit"@
            &&& name@ != "shared_mem_uninit512"@
            &&& name@ != "shared_mem_uninit1k"@
            &&& name@ != "shared_mem_uninit2k"@
            &&& name@ != "shared_mem_uninit4k"@
            &&& name@ != "shared_mem_uninit8k"@
        },
{
    if let Some(found) = kind {
        law_names_differ(found, TransportKind::TcpSocket);
        law_names_differ(found, TransportKind::WebSocket);
        law_names_differ(found, TransportKind::UnixSocket);
        law_names_differ(found, TransportKind::NamedPipe);
        law_names_differ(found, TransportKind::SharedMem);
        law_names_differ(found, TransportKind::SharedMemCompact);
        law_names_differ(found, TransportKind::SharedMemCompactUninit1k);
        law_names_differ(found, TransportKind::SharedMemInline);
        law_names_differ(found, TransportKind::SharedMemInline512);
        law_names_differ(found, TransportKind::SharedMemInline1k);
        law_names_differ(found, TransportKind::SharedMemInline2k);
        law_names_differ(found, TransportKind::SharedMemInline4k);
        law_names_differ(found, TransportKind::SharedMemInline8k);
        law_names_differ(found, TransportKind::SharedMemUninit);
        law_names_differ(found, TransportKind::SharedMemUninit512);
        law_names_differ(found, TransportKind::SharedMemUninit1k);
        law_names_differ(found, TransportKind::SharedMemUninit2k);
        law_names_differ(found, TransportKind::SharedMemUninit4k);
        law_names_differ(found, TransportKind::SharedMemUninit8k);
    } else {
        assert(kind_name(TransportKind::TcpSocket) != name@);
        assert(kind_name(TransportKind::WebSocket) != name@);
        assert(kind_name(TransportKind::UnixSocket) != name@);
        assert(kind_name(TransportKind::NamedPipe) != name@);
        assert(kind_name(TransportKind::SharedMem) != name@);
        assert(kind_name(TransportKind::SharedMemCompact) != name@);
        assert(kind_name(TransportKind::SharedMemCompactUninit1k) != name@);
        assert(kind_name(TransportKind::SharedMemInline) != name@);
        assert(kind_name(TransportKind::SharedMemInline512) != name@);
        assert(kind_name(TransportKind::SharedMemInline1k) != name@);
        assert(kind_name(TransportKind::SharedMemInline2k) != name@);
        assert(kind_name(TransportKind::SharedMemInline4k) != name@);
        assert(kind_name(TransportKind::SharedMemInline8k) != name@);
        assert(kind_name(TransportKind::SharedMemUninit) != name@);
        assert(kind_name(TransportKind::SharedMemUninit512) != name@);
        assert(kind_name(TransportKind::SharedMemUninit1k) != name@);
        assert(kind_name(TransportKind::SharedMemUninit2k) != name@);
        assert(kind_name(TransportKind::SharedMemUninit4k) != name@);
        assert(kind_name(TransportKind::SharedMemUninit8k) != name@);
    }
}

/// What each transport is called.
pub proof fn law_names(kind: TransportKind, name: &'static str)
    requires
        call_ensures(TransportKind::name, (kind,), name),
    ensures
        match kind {
            TransportKind::TcpSocket => name@ == "tcp_socket"@,
            TransportKind::WebSocket => name@ == "websocket"@,
            TransportKind::UnixSocket => name@ == "unix_socket"@,
            TransportKind::NamedPipe => name@ == "named_pipe"@,
            TransportKind::SharedMem => name@ == "shared_mem"@,
            TransportKind::SharedMemCompact => name@ == "shared_mem_compact"@,
            TransportKind::SharedMemCompactUninit1k => name@ == "shared_mem_compact_uninit1k"@,
            TransportKind::SharedMemInline => name@ == "shared_mem_inline"@,
            TransportKind::SharedMemInline512 => name@ == "shared_mem_inline512"@,
            TransportKind::SharedMemInline1k => name@ == "shared_mem_inline1k"@,
            TransportKind::SharedMemInline2k => name@ == "shared_mem_inline2k"@,
            TransportKind::SharedMemInline4k => name@ == "shared_mem_inline4k"@,
            TransportKind::SharedMemInline8k => name@ == "shared_mem_inline8k"@,
            TransportKind::SharedMemUninit => name@ == "shared_mem_uninit"@,
            TransportKind::SharedMemUninit512 => name@ == "shared_mem_uninit512"@,
            TransportKind::SharedMemUninit1k => name@ == "shared_mem_uninit1k"@,
            TransportKind::SharedMemUninit2k => name@ == "shared_mem_uninit2k"@,
            TransportKind::SharedMemUninit4k => name@ == "shared_mem_uninit4k"@,
            TransportKind::SharedMemUninit8k => name@ == "shared_mem_uninit8k"@,
        },
{
}

/// A transport is found by the name that it gives itself.
pub proof fn law_parse_finds_names(
    kind: TransportKind,
    name: &'static str,
    found: Option<TransportKind>,
)
    requires
        call_ensures(TransportKind::name, (kind,), name),
        call_ensures(TransportKind::parse, (name,), found),
    ensures
        found == Some(kind),
{
    if let Some(other) = found {
        law_names_differ(kind, other);
    } else {
        assert(kind_name(kind) != name@);
    }
}

} // verus!
