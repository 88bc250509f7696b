//! RPKI-to-Router (RTR) snapshots, as RFC 8210 lays them out.
//!
//! A client sends a Reset Query and reads the cache's answer: one Cache
//! Response, any number of IPv4 Prefix, IPv6 Prefix and Router Key PDUs, and an
//! End of Data. Every PDU starts with the same header of eight bytes:
//!
//! ```text
//! +-------+----+--------+---------+
//! | Ver(1)|T(1)|Sess(2) | Len(4)  |
//! +-------+----+--------+---------+
//! | Payload (Length - 8 bytes)... |
//! +-------------------------------+
//! ```
//!
//! [`Exchange`] is the client's side of that answer. It says how many bytes it
//! wants next and takes exactly those; it never touches the connection.
//! [`exchange`] runs it over an answer that is held in full. What an answer
//! means is said once, by [`outcome`].

use crate::address::IpAddr;
use crate::text;
use crate::text::decimal_text;
use crate::wire;
use crate::wire::big_endian;
use vstd::prelude::*;
use vstd::string::*;

verus! {

/// Protocol version 0 (RFC 6810).
pub const RTR_VERSION_0: u8 = 0;

/// Protocol version 1 (RFC 8210).
pub const RTR_VERSION_1: u8 = 1;

/// PDU type of a Reset Query.
pub const RESET_QUERY: u8 = 2;

/// PDU type of a Cache Response.
pub const CACHE_RESPONSE: u8 = 3;

/// PDU type of an IPv4 Prefix.
pub const IPV4_PREFIX: u8 = 4;

/// PDU type of an IPv6 Prefix.
pub const IPV6_PREFIX: u8 = 6;

/// PDU type of an End of Data.
pub const END_OF_DATA: u8 = 7;

/// PDU type of a Cache Reset.
pub const CACHE_RESET: u8 = 8;

/// PDU type of a Router Key.
pub const ROUTER_KEY: u8 = 9;

/// PDU type of an Error Report.
pub const ERROR_REPORT: u8 = 10;

/// The longest PDU that is accepted, header and all.
pub const MAX_PDU: u32 = 16_384;

/// One ROA prefix entry of a snapshot.
#[derive(Debug, Clone, Copy, PartialEq, Eq, Structural)]
pub struct RoaPrefix {
    /// Network address.
    pub prefix: IpAddr,
    /// Length of the prefix in bits.
    pub prefix_len: u8,
    /// Longest announcement that the ROA allows.
    pub max_length: u8,
    /// The AS that may originate the prefix.
    pub origin_as: u32,
    /// `true` for an announcement, `false` for a withdrawal.
    pub announce: bool,
}

/// Result of a full Reset Query exchange.
#[derive(Debug, Clone)]
pub struct RtrSnapshot {
    /// Protocol version of the cache.
    pub version: u8,
    /// The cache's session.
    pub session_id: u16,
    /// Serial number of the snapshot.
    pub serial: u32,
    /// All prefixes of the snapshot, in the order in which they came.
    pub prefixes: Vec<RoaPrefix>,
}

/// The contents of an [`RtrSnapshot`].
pub struct SnapshotView {
    /// Protocol version of the cache.
    pub version: u8,
    /// The cache's session.
    pub session_id: u16,
    /// Serial number of the snapshot.
    pub serial: u32,
    /// The prefixes.
    pub prefixes: Seq<RoaPrefix>,
}

impl View for RtrSnapshot {
    type V = SnapshotView;

    open spec fn view(&self) -> SnapshotView {
        SnapshotView {
            version: self.version,
            session_id: self.session_id,
            serial: self.serial,
            prefixes: self.prefixes@,
        }
    }
}

/// Why no snapshot came.
#[derive(Debug, Clone)]
pub enum RtrError {
    /// The connection could not be opened.
    Connect(String),
    /// The connection failed.
    Io(String),
    /// The cache's answer is not the protocol.
    Protocol(String),
    /// The cache answered with an Error Report.
    ServerError {
        /// Error code of the report.
        code: u16,
        /// Text of the report.
        message: String,
    },
    /// The exchange took too long.
    Timeout,
}

/// The contents of an [`RtrError`].
pub enum RtrFailure {
    /// The connection could not be opened.
    Connect(Seq<char>),
    /// The connection failed.
    Io(Seq<char>),
    /// The cache's answer is not the protocol.
    Protocol(Seq<char>),
    /// The cache answered with an Error Report.
    ServerError {
        /// Error code of the report.
        code: u16,
        /// Text of the report.
        message: Seq<char>,
    },
    /// The exchange took too long.
    Timeout,
}

impl View for RtrError {
    type V = RtrFailure;

    open spec fn view(&self) -> RtrFailure {
        match self {
            RtrError::Connect(m) => RtrFailure::Connect(m@),
            RtrError::Io(m) => RtrFailure::Io(m@),
            RtrError::Protocol(m) => RtrFailure::Protocol(m@),
            RtrError::ServerError { code, message } => RtrFailure::ServerError {
                code: *code,
                message: message@,
            },
            RtrError::Timeout => RtrFailure::Timeout,
        }
    }
}

impl RtrFailure {
    /// The failure in words.
    pub open spec fn words(self) -> Seq<char> {
        match self {
            RtrFailure::Connect(m) => "connect failed: "@ + m,
            RtrFailure::Io(m) => "I/O error: "@ + m,
            RtrFailure::Protocol(m) => "protocol error: "@ + m,
            RtrFailure::ServerError { code, message } => "server sent an error report (code "@
                + decimal_text(code as nat) + "): "@ + message,
            RtrFailure::Timeout => "operation timed out"@,
        }
    }
}

impl RtrError {
    /// The error in words.
    pub fn to_string(&self) -> (r: String)
        ensures
            r@ == self@.words(),
    {
        match self {
            RtrError::Connect(m) => text::joined("connect failed: ", m.as_str()),
            RtrError::Io(m) => text::joined("I/O error: ", m.as_str()),
            RtrError::Protocol(m) => text::joined("protocol error: ", m.as_str()),
            RtrError::ServerError { code, message } => {
                let mut r = text::joined(
                    "server sent an error report (code ",
                    text::decimal(*code as u64).as_str(),
                );
                r.append("): ");
                r.append(message.as_str());
                r
            },
            RtrError::Timeout => "operation timed out".to_owned(),
        }
    }
}

/// The header of a PDU. `session_or_flags` is the session in some types of PDU
/// and the error code in an Error Report.
#[derive(Debug, Clone, Copy, PartialEq, Eq, Structural)]
pub struct PduHeader {
    /// Protocol version.
    pub version: u8,
    /// Type of PDU.
    pub typ: u8,
    /// Session, flags or error code.
    pub session_or_flags: u16,
    /// Length in bytes, header and all.
    pub length: u32,
}

/// How far the answer has been read.
#[derive(Debug, Clone)]
pub struct Exchange {
    /// Version and session, once the Cache Response has come.
    pub opened: Option<(u8, u16)>,
    /// The prefixes so far.
    pub prefixes: Vec<RoaPrefix>,
    /// The header of the PDU whose payload comes next.
    pub pending: Option<PduHeader>,
}

/// The contents of an [`Exchange`].
pub struct ExchangeView {
    /// Version and session, once the Cache Response has come.
    pub opened: Option<(u8, u16)>,
    /// The prefixes so far.
    pub prefixes: Seq<RoaPrefix>,
    /// The header of the PDU whose payload comes next.
    pub pending: Option<PduHeader>,
}

impl View for Exchange {
    type V = ExchangeView;

    open spec fn view(&self) -> ExchangeView {
        ExchangeView { opened: self.opened, prefixes: self.prefixes@, pending: self.pending }
    }
}

/// What follows a read.
#[derive(Debug, Clone)]
pub enum Progress {
    /// More is to be read.
    More(Exchange),
    /// The answer is complete.
    Done(RtrSnapshot),
    /// The answer is refused.
    Failed(RtrError),
}

/// The contents of a [`Progress`].
pub enum Effect {
    /// More is to be read.
    More(ExchangeView),
    /// The answer is complete.
    Done(SnapshotView),
    /// The answer is refused.
    Failed(RtrFailure),
}

impl View for Progress {
    type V = Effect;

    open spec fn view(&self) -> Effect {
        match self {
            Progress::More(x) => Effect::More(x@),
            Progress::Done(s) => Effect::Done(s@),
            Progress::Failed(e) => Effect::Failed(e@),
        }
    }
}

/// The header that eight bytes hold.
pub open spec fn header(b: Seq<u8>) -> PduHeader {
    PduHeader {
        version: b[0],
        typ: b[1],
        session_or_flags: big_endian(b.subrange(2, 4)) as u16,
        length: big_endian(b.subrange(4, 8)) as u32,
    }
}

/// What is wrong with a PDU of `length` bytes, if anything.
pub open spec fn length_fault(length: u32) -> Option<Seq<char>> {
    if length < 8 {
        Some("PDU length "@ + decimal_text(length as nat) + " smaller than header (8)"@)
    } else if length > MAX_PDU {
        Some("PDU length "@ + decimal_text(length as nat) + " exceeds 16 KB cap"@)
    } else {
        None
    }
}

/// The message in the payload of an Error Report: the bytes behind the
/// encapsulated PDU and the length of the text, as many as that length says
/// and the payload holds.
pub open spec fn report_message(p: Seq<u8>) -> Seq<char> {
    if p.len() < 4 {
        "(truncated error payload)"@
    } else {
        let at = 4 + big_endian(p.subrange(0, 4)) as int;
        if p.len() < at + 4 {
            Seq::empty()
        } else {
            let end = at + 4 + big_endian(p.subrange(at, at + 4));
            wire::utf8_lossy(
                p.subrange(
                    at + 4,
                    if end < p.len() {
                        end
                    } else {
                        p.len() as int
                    },
                ),
            )
        }
    }
}

/// The entry that the payload of a Prefix PDU holds, whose address takes
/// `width` bytes.
pub open spec fn prefix_entry(p: Seq<u8>, width: int) -> RoaPrefix {
    let number = big_endian(p.subrange(4, 4 + width));
    RoaPrefix {
        prefix: if width == 4 {
            IpAddr::V4(number as u32)
        } else {
            IpAddr::V6(number as u128)
        },
        prefix_len: p[1],
        max_length: p[2],
        origin_as: big_endian(p.subrange(4 + width, 8 + width)) as u32,
        announce: p[0] % 2 == 1,
    }
}

/// What the PDU with header `h` and payload `p` does to the exchange `x`.
pub open spec fn pdu_effect(x: ExchangeView, h: PduHeader, p: Seq<u8>) -> Effect {
    let next = ExchangeView { opened: x.opened, prefixes: x.prefixes, pending: None };
    if h.typ == ERROR_REPORT {
        Effect::Failed(
            RtrFailure::ServerError { code: h.session_or_flags, message: report_message(p) },
        )
    } else if x.opened is None {
        if h.typ == CACHE_RESPONSE {
            Effect::More(
                ExchangeView {
                    opened: Some((h.version, h.session_or_flags)),
                    prefixes: x.prefixes,
                    pending: None,
                },
            )
        } else if h.typ == CACHE_RESET {
            Effect::Failed(
                RtrFailure::Protocol("server sent Cache Reset — no snapshot available"@),
            )
        } else {
            Effect::Failed(
                RtrFailure::Protocol(
                    "expected Cache Response, got PDU type "@ + decimal_text(h.typ as nat),
                ),
            )
        }
    } else if h.typ == IPV4_PREFIX {
        if h.length != 20 {
            Effect::Failed(
                RtrFailure::Protocol(
                    "IPv4 Prefix PDU length "@ + decimal_text(h.length as nat) + " != 20"@,
                ),
            )
        } else {
            Effect::More(
                ExchangeView {
                    opened: x.opened,
                    prefixes: x.prefixes.push(prefix_entry(p, 4)),
                    pending: None,
                },
            )
        }
    } else if h.typ == IPV6_PREFIX {
        if h.length != 32 {
            Effect::Failed(
                RtrFailure::Protocol(
                    "IPv6 Prefix PDU length "@ + decimal_text(h.length as nat) + " != 32"@,
                ),
            )
        } else {
            Effect::More(
                ExchangeView {
                    opened: x.opened,
                    prefixes: x.prefixes.push(prefix_entry(p, 16)),
                    pending: None,
                },
            )
        }
    } else if h.typ == ROUTER_KEY {
        Effect::More(next)
    } else if h.typ == END_OF_DATA {
        if p.len() < 4 {
            Effect::Failed(RtrFailure::Protocol("End of Data missing serial"@))
        } else {
            let (version, session_id) = x.opened->Some_0;
            Effect::Done(
                SnapshotView {
                    version,
                    session_id,
                    serial: big_endian(p.subrange(0, 4)) as u32,
                    prefixes: x.prefixes,
                },
            )
        }
    } else {
        Effect::Failed(
            RtrFailure::Protocol(
                "unexpected PDU type "@ + decimal_text(h.typ as nat) + " during snapshot stream"@,
            ),
        )
    }
}

/// What the next bytes do to the exchange `x`. A PDU without a payload takes
/// effect with its header.
pub open spec fn read_effect(x: ExchangeView, b: Seq<u8>) -> Effect {
    match x.pending {
        None => {
            let h = header(b);
            match length_fault(h.length) {
                Some(m) => Effect::Failed(RtrFailure::Protocol(m)),
                None => if h.length == 8 {
                    pdu_effect(x, h, Seq::empty())
                } else {
                    Effect::More(
                        ExchangeView { opened: x.opened, prefixes: x.prefixes, pending: Some(h) },
                    )
                },
            }
        },
        Some(h) => pdu_effect(x, h, b),
    }
}

/// The failure when the next bytes cannot be read, for the given reason.
pub open spec fn read_failure(x: ExchangeView, reason: Seq<char>) -> RtrFailure {
    match x.pending {
        None => RtrFailure::Io("read header: "@ + reason),
        Some(h) => if h.typ == ERROR_REPORT {
            RtrFailure::ServerError {
                code: h.session_or_flags,
                message: "(unable to read error payload)"@,
            }
        } else if x.opened is Some && h.typ == IPV4_PREFIX && h.length == 20 {
            RtrFailure::Io("read v4 prefix: "@ + reason)
        } else if x.opened is Some && h.typ == IPV6_PREFIX && h.length == 32 {
            RtrFailure::Io("read v6 prefix: "@ + reason)
        } else if x.opened is Some && h.typ == END_OF_DATA && h.length >= 12 {
            RtrFailure::Io("read EoD: "@ + reason)
        } else {
            RtrFailure::Io(
                "drain "@ + decimal_text((h.length - 8) as nat) + " bytes: "@ + reason,
            )
        },
    }
}

impl ExchangeView {
    /// Whether the pending header, if any, announces a payload of legal length.
    pub open spec fn wf(self) -> bool {
        self.pending matches Some(h) ==> 8 < h.length <= MAX_PDU
    }

    /// How many bytes come next.
    pub open spec fn wanted(self) -> int {
        match self.pending {
            None => 8,
            Some(h) => h.length - 8,
        }
    }
}

/// The exchange before anything has been read.
pub open spec fn start() -> ExchangeView {
    ExchangeView { opened: None, prefixes: Seq::empty(), pending: None }
}

/// What comes of the exchange `x` when the rest of the answer is `bytes` and
/// reading beyond fails with `end`.
pub open spec fn outcome(x: ExchangeView, bytes: Seq<u8>, end: Seq<char>) -> Result<
    SnapshotView,
    RtrFailure,
>
    decreases bytes.len(),
{
    if x.wanted() <= 0 || bytes.len() < x.wanted() {
        Err(read_failure(x, end))
    } else {
        match read_effect(x, bytes.take(x.wanted())) {
            Effect::More(y) => outcome(y, bytes.skip(x.wanted()), end),
            Effect::Done(s) => Ok(s),
            Effect::Failed(f) => Err(f),
        }
    }
}

/// The bytes of a Reset Query.
pub fn reset_query(version: u8) -> (r: Vec<u8>)
    ensures
        r@ == seq![version, RESET_QUERY, 0, 0, 0, 0, 0, 8],
{
    let mut r: Vec<u8> = Vec::new();
    r.push(version);
    r.push(RESET_QUERY);
    wire::push_u16(&mut r, 0);
    wire::push_u32(&mut r, 8);
    assert(r@ =~= seq![version, RESET_QUERY, 0, 0, 0, 0, 0, 8]);
    r
}

/// Reads the eight bytes of a header.
pub fn parse_header(b: &[u8]) -> (r: Result<PduHeader, RtrError>)
    requires
        b@.len() == 8,
    ensures
        match r {
            Ok(h) => h == header(b@) && length_fault(h.length) is None,
            Err(e) => length_fault(header(b@).length) matches Some(m) && e@
                == RtrFailure::Protocol(m),
        },
{
    let h = PduHeader {
        version: b[0],
        typ: b[1],
        session_or_flags: wire::read_u16(b, 2),
        length: wire::read_u32(b, 4),
    };
    if h.length < 8 || h.length > MAX_PDU {
        let mut m = text::joined("PDU length ", text::decimal(h.length as u64).as_str());
        if h.length < 8 {
            m.append(" smaller than header (8)");
        } else {
            m.append(" exceeds 16 KB cap");
        }
        return Err(RtrError::Protocol(m));
    }
    Ok(h)
}

/// The message in the payload of an Error Report.
pub fn parse_error_report(p: &[u8]) -> (r: String)
    requires
        p@.len() <= MAX_PDU,
    ensures
        r@ == report_message(p@),
{
    if p.len() < 4 {
        return "(truncated error payload)".to_owned();
    }
    let length: u64 = p.len() as u64;
    let at: u64 = 4 + wire::read_u32(p, 0) as u64;
    if length < at + 4 {
        let r = String::new();
        assert(r@ =~= Seq::<char>::empty());
        return r;
    }
    let end: u64 = at + 4 + wire::read_u32(p, at as usize) as u64;
    let stop: u64 = if end < length {
        end
    } else {
        length
    };
    wire::lossy_text(&p[(at + 4) as usize..stop as usize])
}

/// The entry in the payload of an IPv4 Prefix PDU.
pub fn parse_ipv4_prefix(p: &[u8]) -> (r: RoaPrefix)
    requires
        p@.len() == 12,
    ensures
        r == prefix_entry(p@, 4),
{
    let flags: u8 = p[0];
    assert((flags & 1 != 0) == (flags % 2 == 1)) by (bit_vector);
    RoaPrefix {
        prefix: IpAddr::V4(wire::read_u32(p, 4)),
        prefix_len: p[1],
        max_length: p[2],
        origin_as: wire::read_u32(p, 8),
        announce: flags & 1 != 0,
    }
}

/// The entry in the payload of an IPv6 Prefix PDU.
pub fn parse_ipv6_prefix(p: &[u8]) -> (r: RoaPrefix)
    requires
        p@.len() == 24,
    ensures
        r == prefix_entry(p@, 16),
{
    let flags: u8 = p[0];
    assert((flags & 1 != 0) == (flags % 2 == 1)) by (bit_vector);
    RoaPrefix {
        prefix: IpAddr::V6(wire::read_u128(p, 4)),
        prefix_len: p[1],
        max_length: p[2],
        origin_as: wire::read_u32(p, 20),
        announce: flags & 1 != 0,
    }
}

/// A protocol error about a number: `before`, the number, `after`.
fn numbered(before: &str, n: u32, after: &str) -> (r: RtrError)
    ensures
        r@ == RtrFailure::Protocol(before@ + decimal_text(n as nat) + after@),
{
    let mut m = text::joined(before, text::decimal(n as u64).as_str());
    m.append(after);
    RtrError::Protocol(m)
}

impl Exchange {
    /// Whether the pending header, if any, announces a payload of legal length.
    pub open spec fn wf(self) -> bool {
        self@.wf()
    }

    /// The exchange before anything has been read.
    pub fn new() -> (r: Exchange)
        ensures
            r.wf(),
            r@ == start(),
    {
        let r = Exchange { opened: None, prefixes: Vec::new(), pending: None };
        assert(r@.prefixes =~= Seq::<RoaPrefix>::empty());
        r
    }

    /// How many bytes are to be read next.
    pub fn next_read(&self) -> (r: usize)
        requires
            self.wf(),
        ensures
            r == self@.wanted(),
            0 < r <= MAX_PDU,
    {
        match &self.pending {
            None => 8,
            Some(h) => (h.length - 8) as usize,
        }
    }

    /// Takes the bytes that were asked for.
    pub fn feed(self, bytes: &[u8]) -> (r: Progress)
        requires
            self.wf(),
            bytes@.len() == self@.wanted(),
        ensures
            r@ == read_effect(self@, bytes@),
            r matches Progress::More(x) ==> x.wf(),
    {
        match self.pending {
            None => {
                match parse_header(bytes) {
                    Err(e) => Progress::Failed(e),
                    Ok(h) => {
                        if h.length == 8 {
                            self.take_pdu(h, &bytes[8..8])
                        } else {
                            Progress::More(
                                Exchange {
                                    opened: self.opened,
                                    prefixes: self.prefixes,
                                    pending: Some(h),
                                },
                            )
                        }
                    },
                }
            },
            Some(h) => self.take_pdu(h, bytes),
        }
    }

    /// Takes a whole PDU.
    fn take_pdu(self, h: PduHeader, p: &[u8]) -> (r: Progress)
        requires
            8 <= h.length <= MAX_PDU,
            p@.len() == h.length - 8,
        ensures
            r@ == pdu_effect(self@, h, p@),
            r matches Progress::More(x) ==> x.wf(),
    {
        if h.typ == ERROR_REPORT {
            return Progress::Failed(
                RtrError::ServerError {
                    code: h.session_or_flags,
                    message: parse_error_report(p),
                },
            );
        }
        let mut prefixes = self.prefixes;
        match self.opened {
            None => {
                if h.typ == CACHE_RESPONSE {
                    Progress::More(
                        Exchange {
                            opened: Some((h.version, h.session_or_flags)),
                            prefixes,
                            pending: None,
                        },
                    )
                } else if h.typ == CACHE_RESET {
                    Progress::Failed(
                        RtrError::Protocol(
                            "server sent Cache Reset — no snapshot available".to_owned(),
                        ),
                    )
                } else {
                    Progress::Failed(
                        RtrError::Protocol(
                            text::joined(
                                "expected Cache Response, got PDU type ",
                                text::decimal(h.typ as u64).as_str(),
                            ),
                        ),
                    )
                }
            },
            Some((version, session_id)) => {
                if h.typ == IPV4_PREFIX {
                    if h.length != 20 {
                        return Progress::Failed(
                            numbered("IPv4 Prefix PDU length ", h.length, " != 20"),
                        );
                    }
                    prefixes.push(parse_ipv4_prefix(p));
                } else if h.typ == IPV6_PREFIX {
                    if h.length != 32 {
                        return Progress::Failed(
                            numbered("IPv6 Prefix PDU length ", h.length, " != 32"),
                        );
                    }
                    prefixes.push(parse_ipv6_prefix(p));
                } else if h.typ == END_OF_DATA {
                    if p.len() < 4 {
                        return Progress::Failed(
                            RtrError::Protocol("End of Data missing serial".to_owned()),
                        );
                    }
                    return Progress::Done(
                        RtrSnapshot {
                            version,
                            session_id,
                            serial: wire::read_u32(p, 0),
                            prefixes,
                        },
                    );
                } else if h.typ != ROUTER_KEY {
                    return Progress::Failed(
                        numbered(
                            "unexpected PDU type ",
                            h.typ as u32,
                            " during snapshot stream",
                        ),
                    );
                }
                Progress::More(Exchange { opened: self.opened, prefixes, pending: None })
            },
        }
    }

    /// The error when the bytes that were asked for cannot be read.
    pub fn read_failed(&self, reason: &str) -> (r: RtrError)
        requires
            self.wf(),
        ensures
            r@ == read_failure(self@, reason@),
    {
        match &self.pending {
            None => RtrError::Io(text::joined("read header: ", reason)),
            Some(h) => {
                if h.typ == ERROR_REPORT {
                    RtrError::ServerError {
                        code: h.session_or_flags,
                        message: "(unable to read error payload)".to_owned(),
                    }
                } else if self.opened.is_some() && h.typ == IPV4_PREFIX && h.length == 20 {
                    RtrError::Io(text::joined("read v4 prefix: ", reason))
                } else if self.opened.is_some() && h.typ == IPV6_PREFIX && h.length == 32 {
                    RtrError::Io(text::joined("read v6 prefix: ", reason))
                } else if self.opened.is_some() && h.typ == END_OF_DATA && h.length >= 12 {
                    RtrError::Io(text::joined("read EoD: ", reason))
                } else {
                    let mut m = text::joined(
                        "drain ",
                        text::decimal((h.length - 8) as u64).as_str(),
                    );
                    m.append(" bytes: ");
                    m.append(reason);
                    RtrError::Io(m)
                }
            },
        }
    }
}

/// Reads a whole answer, beyond whose end reading fails with `end`.
pub fn exchange(answer: &[u8], end: &str) -> (r: Result<RtrSnapshot, RtrError>)
    ensures
        match r {
            Ok(s) => outcome(start(), answer@, end@) == Ok::<SnapshotView, RtrFailure>(s@),
            Err(e) => outcome(start(), answer@, end@) == Err::<SnapshotView, RtrFailure>(e@),
        },
{
    let mut x = Exchange::new();
    let mut at: usize = 0;
    assert(answer@.skip(0) =~= answer@);
    loop
        invariant
            x.wf(),
            at <= answer@.len(),
            outcome(start(), answer@, end@) == outcome(x@, answer@.skip(at as int), end@),
        decreases answer@.len() - at,
    {
        let wanted: usize = x.next_read();
        if answer.len() - at < wanted {
            return Err(x.read_failed(end));
        }
        assert(answer@.skip(at as int).take(wanted as int) =~= answer@.subrange(
            at as int,
            at + wanted,
        ));
        assert(answer@.skip(at as int).skip(wanted as int) =~= answer@.skip(at + wanted));
        match x.feed(&answer[at..at + wanted]) {
            Progress::More(y) => {
                x = y;
            },
            Progress::Done(s) => {
                return Ok(s);
            },
            Progress::Failed(e) => {
                return Err(e);
            },
        }
        at = at + wanted;
    }
}

/// An answer is complete with its End of Data: whatever follows it changes
/// nothing.
pub proof fn law_trailing_bytes_do_not_matter(
    x: ExchangeView,
    bytes: Seq<u8>,
    more: Seq<u8>,
    end: Seq<char>,
)
    requires
        outcome(x, bytes, end) is Ok,
    ensures
        outcome(x, bytes + more, end) == outcome(x, bytes, end),
    decreases bytes.len(),
{
    let n = x.wanted();
    assert((bytes + more).take(n) =~= bytes.take(n));
    assert((bytes + more).skip(n) =~= bytes.skip(n) + more);
    if let Effect::More(y) = read_effect(x, bytes.take(n)) {
        law_trailing_bytes_do_not_matter(y, bytes.skip(n), more, end);
    }
}

/// Reading the bytes that are asked for, as they come, amounts to reading the
/// whole answer at once.
pub proof fn law_reading_in_pieces(
    x: ExchangeView,
    piece: Seq<u8>,
    rest: Seq<u8>,
    end: Seq<char>,
)
    requires
        x.wf(),
        piece.len() == x.wanted(),
    ensures
        outcome(x, piece + rest, end) == (match read_effect(x, piece) {
            Effect::More(y) => outcome(y, rest, end),
            Effect::Done(s) => Ok(s),
            Effect::Failed(f) => Err(f),
        }),
{
    assert((piece + rest).take(x.wanted()) =~= piece);
    assert((piece + rest).skip(x.wanted()) =~= rest);
}

/// The bytes of a PDU.
pub open spec fn pdu(version: u8, typ: u8, session_or_flags: u16, payload: Seq<u8>) -> Seq<u8> {
    seq![version, typ] + wire::two_bytes(session_or_flags as int) + wire::four_bytes(
        8 + payload.len() as int,
    ) + payload
}

/// The payload of the Prefix PDU that announces or withdraws `e`.
pub open spec fn prefix_payload(e: RoaPrefix) -> Seq<u8> {
    seq![
        if e.announce {
            1u8
        } else {
            0u8
        },
        e.prefix_len,
        e.max_length,
        0u8,
    ] + (match e.prefix {
        IpAddr::V4(n) => wire::spelled(n as nat, 4),
        IpAddr::V6(n) => wire::spelled(n as nat, 16),
    }) + wire::four_bytes(e.origin_as as int)
}

/// The Prefix PDUs of `entries`, in order.
pub open spec fn prefix_pdus(version: u8, entries: Seq<RoaPrefix>) -> Seq<u8>
    decreases entries.len(),
{
    if entries.len() == 0 {
        Seq::empty()
    } else {
        let typ = if entries[0].prefix is V4 {
            IPV4_PREFIX
        } else {
            IPV6_PREFIX
        };
        pdu(version, typ, 0, prefix_payload(entries[0])) + prefix_pdus(version, entries.skip(1))
    }
}

proof fn lemma_whole_pdu(
    x: ExchangeView,
    h: PduHeader,
    payload: Seq<u8>,
    rest: Seq<u8>,
    end: Seq<char>,
)
    requires
        x.pending is None,
        h.length == 8 + payload.len(),
        h.length <= MAX_PDU,
    ensures
        outcome(x, pdu(h.version, h.typ, h.session_or_flags, payload) + rest, end) == (
        match pdu_effect(x, h, payload) {
            Effect::More(y) => outcome(y, rest, end),
            Effect::Done(s) => Ok(s),
            Effect::Failed(f) => Err(f),
        }),
{
    let b = pdu(h.version, h.typ, h.session_or_flags, payload);
    let head = b.take(8);
    assert(head.subrange(2, 4) =~= wire::two_bytes(h.session_or_flags as int));
    assert(head.subrange(4, 8) =~= wire::four_bytes(h.length as int));
    wire::law_two_bytes_round_trip(h.session_or_flags as int);
    wire::law_four_bytes_round_trip(h.length as int);
    assert(header(head) == h);
    assert(b + rest =~= head + (payload + rest));
    law_reading_in_pieces(x, head, payload + rest, end);
    if payload.len() == 0 {
        assert(payload =~= Seq::<u8>::empty());
        assert(payload + rest =~= rest);
    } else {
        let y = ExchangeView { opened: x.opened, prefixes: x.prefixes, pending: Some(h) };
        law_reading_in_pieces(y, payload, rest, end);
        assert(pdu_effect(y, h, payload) == pdu_effect(x, h, payload));
    }
}

proof fn lemma_prefix_read_back(e: RoaPrefix)
    ensures
        prefix_payload(e).len() == (if e.prefix is V4 {
            12int
        } else {
            24int
        }),
        prefix_entry(
            prefix_payload(e),
            if e.prefix is V4 {
                4
            } else {
                16
            },
        ) == e,
{
    let p = prefix_payload(e);
    let width: int = if e.prefix is V4 {
        4
    } else {
        16
    };
    let number: nat = match e.prefix {
        IpAddr::V4(n) => n as nat,
        IpAddr::V6(n) => n as nat,
    };
    wire::lemma_spelled_length(number, width as nat);
    assert(p.subrange(4, 4 + width) =~= wire::spelled(number, width as nat));
    assert(p.subrange(4 + width, 8 + width) =~= wire::four_bytes(e.origin_as as int));
    assert(number < wire::pow256(width as nat)) by {
        reveal_with_fuel(wire::pow256, 17);
    }
    wire::law_spelled_round_trip(number, width as nat);
    wire::law_four_bytes_round_trip(e.origin_as as int);
}

proof fn lemma_prefixes_read_back(
    x: ExchangeView,
    version: u8,
    entries: Seq<RoaPrefix>,
    rest: Seq<u8>,
    end: Seq<char>,
)
    requires
        x.pending is None,
        x.opened is Some,
    ensures
        outcome(x, prefix_pdus(version, entries) + rest, end) == outcome(
            ExchangeView { opened: x.opened, prefixes: x.prefixes + entries, pending: None },
            rest,
            end,
        ),
    decreases entries.len(),
{
    if entries.len() == 0 {
        assert(prefix_pdus(version, entries) + rest =~= rest);
        assert(x.prefixes + entries =~= x.prefixes);
    } else {
        let e = entries[0];
        let tail = prefix_pdus(version, entries.skip(1));
        lemma_prefix_read_back(e);
        let h = PduHeader {
            version,
            typ: if e.prefix is V4 {
                IPV4_PREFIX
            } else {
                IPV6_PREFIX
            },
            session_or_flags: 0,
            length: (8 + prefix_payload(e).len()) as u32,
        };
        let first = pdu(version, h.typ, 0, prefix_payload(e));
        assert(prefix_pdus(version, entries) + rest =~= first + (tail + rest));
        lemma_whole_pdu(x, h, prefix_payload(e), tail + rest, end);
        let y = ExchangeView { opened: x.opened, prefixes: x.prefixes.push(e), pending: None };
        lemma_prefixes_read_back(y, version, entries.skip(1), rest, end);
        assert(y.prefixes + entries.skip(1) =~= x.prefixes + entries);
    }
}

/// What a cache writes is what the client reads: a Cache Response, the Prefix
/// PDUs of any entries and an End of Data give back the version, the session,
/// the serial and exactly those entries in their order.
pub proof fn law_snapshot_is_read_back(s: SnapshotView, timers: Seq<u8>, end: Seq<char>)
    requires
        timers.len() <= 16_372,
    ensures
        outcome(
            start(),
            pdu(s.version, CACHE_RESPONSE, s.session_id, Seq::empty()) + (prefix_pdus(
                s.version,
                s.prefixes,
            ) + pdu(
                s.version,
                END_OF_DATA,
                s.session_id,
                wire::four_bytes(s.serial as int) + timers,
            )),
            end,
        ) == Ok::<SnapshotView, RtrFailure>(s),
{
    let last_payload = wire::four_bytes(s.serial as int) + timers;
    let last = pdu(s.version, END_OF_DATA, s.session_id, last_payload);
    let opening = PduHeader {
        version: s.version,
        typ: CACHE_RESPONSE,
        session_or_flags: s.session_id,
        length: 8,
    };
    let rest = prefix_pdus(s.version, s.prefixes) + last;
    lemma_whole_pdu(start(), opening, Seq::empty(), rest, end);
    let x = ExchangeView {
        opened: Some((s.version, s.session_id)),
        prefixes: Seq::empty(),
        pending: None,
    };
    lemma_prefixes_read_back(x, s.version, s.prefixes, last, end);
    assert(x.prefixes + s.prefixes =~= s.prefixes);
    let y = ExchangeView { opened: x.opened, prefixes: s.prefixes, pending: None };
    let closing = PduHeader {
        version: s.version,
        typ: END_OF_DATA,
        session_or_flags: s.session_id,
        length: (8 + last_payload.len()) as u32,
    };
    assert(last + Seq::<u8>::empty() =~= last);
    lemma_whole_pdu(y, closing, last_payload, Seq::empty(), end);
    assert(last_payload.subrange(0, 4) =~= wire::four_bytes(s.serial as int));
    wire::law_four_bytes_round_trip(s.serial as int);
}

/// A Router Key, of whatever length, that stands between other PDUs changes nothing
/// in what comes of an exchange that is open.
pub proof fn law_router_keys_do_not_matter(
    x: ExchangeView,
    version: u8,
    flags: u16,
    payload: Seq<u8>,
    rest: Seq<u8>,
    end: Seq<char>,
)
    requires
        x.opened is Some,
        x.pending is None,
        payload.len() <= 16_376,
    ensures
        outcome(x, pdu(version, 9, flags, payload) + rest, end) == outcome(x, rest, end),
{
    let h = PduHeader {
        version,
        typ: 9,
        session_or_flags: flags,
        length: (8 + payload.len()) as u32,
    };
    lemma_whole_pdu(x, h, payload, rest, end);
    assert(x == (ExchangeView { opened: x.opened, prefixes: x.prefixes, pending: None }));
}

/// An Error Report ends an exchange at any time, with its code and its message,
/// whatever came before and whatever follows.
#[verifier::rlimit(40)]
pub proof fn law_error_reports_end_the_exchange(
    x: ExchangeView,
    version: u8,
    code: u16,
    enclosed: Seq<u8>,
    message: Seq<u8>,
    rest: Seq<u8>,
    end: Seq<char>,
)
    requires
        x.pending is None,
        enclosed.len() + message.len() <= 16_368,
    ensures
        outcome(
            x,
            pdu(
                version,
                10,
                code,
                wire::four_bytes(enclosed.len() as int) + enclosed + wire::four_bytes(
                    message.len() as int,
                ) + message,
            ) + rest,
            end,
        ) == Err::<SnapshotView, RtrFailure>(
            RtrFailure::ServerError { code, message: wire::utf8_lossy(message) },
        ),
{
    let p = wire::four_bytes(enclosed.len() as int) + enclosed + wire::four_bytes(
        message.len() as int,
    ) + message;
    let h = PduHeader {
        version,
        typ: 10,
        session_or_flags: code,
        length: (8 + p.len()) as u32,
    };
    lemma_whole_pdu(x, h, p, rest, end);
    let at = 4 + enclosed.len() as int;
    assert(p.subrange(0, 4) =~= wire::four_bytes(enclosed.len() as int));
    wire::law_four_bytes_round_trip(enclosed.len() as int);
    assert(p.subrange(at, at + 4) =~= wire::four_bytes(message.len() as int));
    wire::law_four_bytes_round_trip(message.len() as int);
    assert(p.subrange(at + 4, at + 4 + message.len()) =~= message);
}

/// A PDU is refused, whatever its type, where it says that it is shorter than its
/// header or longer than 16384 bytes.
pub proof fn law_lengths_are_limited(x: ExchangeView, bytes: Seq<u8>, end: Seq<char>)
    requires
        x.pending is None,
        bytes.len() >= 8,
        !(8 <= big_endian(bytes.subrange(4, 8)) <= 16_384),
    ensures
        outcome(x, bytes, end) matches Err(f) && f is Protocol,
{
    let head = bytes.take(8);
    assert(head.subrange(4, 8) =~= bytes.subrange(4, 8));
    wire::lemma_four(bytes.subrange(4, 8));
}

/// Before the Cache Response no other PDU is taken, and behind it none but Prefixes,
/// Router Keys and the End of Data; a Prefix must have its one length, which is 20
/// for a short address and 32 for a long one.
#[verifier::rlimit(40)]
pub proof fn law_what_is_refused(
    x: ExchangeView,
    h: PduHeader,
    payload: Seq<u8>,
    rest: Seq<u8>,
    end: Seq<char>,
)
    requires
        x.pending is None,
        h.length == 8 + payload.len(),
        h.length <= 16_384,
        h.typ != 10,
        x.opened is None && h.typ != 3 || x.opened is Some && !(h.typ == 4 && h.length == 20
            || h.typ == 6 && h.length == 32 || h.typ == 7 && h.length >= 12 || h.typ == 9),
    ensures
        outcome(x, pdu(h.version, h.typ, h.session_or_flags, payload) + rest, end) matches Err(f)
            && f is Protocol,
{
    lemma_whole_pdu(x, h, payload, rest, end);
}

/// An answer that ends where bytes are still wanted is no snapshot: the exchange fails
/// for want of them, or, within an Error Report, with that report's code.
pub proof fn law_cut_answers_fail(x: ExchangeView, bytes: Seq<u8>, end: Seq<char>)
    requires
        bytes.len() < x.wanted(),
    ensures
        x.pending is None ==> outcome(x, bytes, end) == Err::<SnapshotView, RtrFailure>(
            RtrFailure::Io("read header: "@ + end),
        ),
        x.pending matches Some(h) ==> (h.typ != 10 ==> (outcome(x, bytes, end) matches Err(f)
            && f is Io)),
        x.pending matches Some(h) ==> (h.typ == 10 ==> (outcome(x, bytes, end) matches Err(f)
            && f matches RtrFailure::ServerError { code, .. } && code == h.session_or_flags)),
        x.pending is None ==> x.wanted() == 8,
        x.pending matches Some(h) ==> x.wanted() + 8 == h.length,
{
}

/// A Reset Query is a PDU of type 2 without a payload.
pub proof fn law_reset_query(version: u8)
    ensures
        seq![version, RESET_QUERY, 0, 0, 0, 0, 0, 8] == pdu(version, 2, 0, Seq::empty()),
{
    assert(seq![version, RESET_QUERY, 0, 0, 0, 0, 0, 8] =~= pdu(version, 2, 0, Seq::empty()));
}

/// Of the flags of a Prefix only the lowest bit counts, and it says that the prefix is
/// announced; the lengths are the second and the third byte, and the AS is spelled by
/// the last four.
pub proof fn law_fields_of_a_prefix(p: Seq<u8>)
    ensures
        ({
            let e = prefix_entry(p, 4);
            p.len() == 12 ==> {
                &&& e.announce <==> p[0] & 1 == 1
                &&& e.prefix_len == p[1]
                &&& e.max_length == p[2]
                &&& e.prefix == IpAddr::V4(
                    (p[4] * 0x100_0000 + p[5] * 0x1_0000 + p[6] * 0x100 + p[7]) as u32,
                )
                &&& e.origin_as == p[8] * 0x100_0000 + p[9] * 0x1_0000 + p[10] * 0x100 + p[11]
            }
        }),
        ({
            let e = prefix_entry(p, 16);
            p.len() == 24 ==> {
                &&& e.announce <==> p[0] & 1 == 1
                &&& e.prefix_len == p[1]
                &&& e.max_length == p[2]
                &&& e.prefix is V6
                &&& e.origin_as == p[20] * 0x100_0000 + p[21] * 0x1_0000 + p[22] * 0x100 + p[23]
            }
        }),
{
    let flags = p[0];
    assert(flags % 2 == 1 <==> flags & 1 == 1) by (bit_vector);
    if p.len() == 12 {
        wire::lemma_four(p.subrange(4, 8));
        wire::lemma_four(p.subrange(8, 12));
    }
    if p.len() == 24 {
        wire::lemma_four(p.subrange(20, 24));
    }
}

} // verus!
