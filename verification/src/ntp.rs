//! Clock discipline over the network: request and reply packets, the offset
//! they give, and how samples become the one offset that stamps use.

use vstd::prelude::*;
use vstd::string::StringExecFns;
use crate::bytes::{be32, join_be32, split_be32};
use crate::sorting::{sort_stable, stable_sorted};
use crate::text::chars_of;
use crate::time::{
    NtpDiscipline, TickStamp, floor_div, floor_rem, is_offset_within, offset_within,
    saturated_difference, saturated_sum, saturating_difference, saturating_sum, tick_number,
    truncated_quotient, truncating_div,
};

verus! {

/// Length of a packet in bytes.
pub const NTP_PACKET_LEN: usize = 48;

/// First byte of a request: version three, client.
pub const NTP_CLIENT_REQUEST: u8 = 0x1B;

/// Seconds from the start of the network clock in 1900 to the Unix epoch.
pub const NTP_UNIX_EPOCH_OFFSET_SECS: i64 = 2_208_988_800;

pub const NTP_DEFAULT_PORT: u16 = 123;

/// A new sample moves the filtered offset by this part of the way.
pub const FILTER_DIVISOR: i64 = 4;

pub const DEFAULT_NTP_SERVER: &'static str = "pool.ntp.org";

/// Room for a reply in bytes.
pub const QUERY_RECV_LEN: usize = 512;

/// The offset that the process shares, with one value set aside for none.
#[derive(Debug, Clone, Copy, PartialEq, Eq, Structural)]
pub struct SharedOffset {
    pub millis: i64,
}

impl SharedOffset {
    /// The offset, unless there is none.
    pub open spec fn value(self) -> Option<i64> {
        if self.millis == i64::MAX {
            None
        } else {
            Some(self.millis)
        }
    }

    /// No offset yet.
    pub fn none() -> (s: Self)
        ensures
            s.value() is None,
    {
        SharedOffset { millis: i64::MAX }
    }
}

/// The offset that the process shares.
pub fn shared_offset_millis(shared: &SharedOffset) -> (r: Option<i64>)
    ensures
        r == shared.value(),
{
    if shared.millis == i64::MAX {
        None
    } else {
        Some(shared.millis)
    }
}

/// Shares an offset; the highest number stands for none.
pub fn publish_shared_offset(shared: &mut SharedOffset, offset: i64)
    ensures
        final(shared).value() == (if offset == i64::MAX {
            None
        } else {
            Some(offset)
        }),
{
    shared.millis = offset;
}

/// Stops sharing an offset.
pub fn withdraw_shared_offset(shared: &mut SharedOffset)
    ensures
        final(shared).value() is None,
{
    shared.millis = i64::MAX;
}

/// The servers to ask, and how large an offset stamps tolerate.
#[derive(Debug, Clone, PartialEq, Eq)]
pub struct NtpConfig {
    pub servers: Vec<String>,
    pub max_offset_millis: i64,
}

impl NtpConfig {
    pub fn new(servers: Vec<String>, max_offset_millis: i64) -> (c: Self)
        ensures
            c == (NtpConfig { servers, max_offset_millis }),
    {
        NtpConfig { servers, max_offset_millis }
    }
}

/// The latest offset as a reader of it sees it.
#[derive(Debug, Clone, Copy, PartialEq, Eq, Structural)]
pub struct NtpHandle {
    pub offset: Option<i64>,
    pub max_offset_millis: i64,
}

impl NtpHandle {
    /// The offset is there and no larger than the tolerance.
    pub open spec fn healthy(self) -> bool {
        self.offset matches Some(offset) && offset_within(
            offset as int,
            self.max_offset_millis as int,
        )
    }

    /// A reader before the first offset.
    pub fn undisciplined(max_offset_millis: i64) -> (h: Self)
        ensures
            h == (NtpHandle { offset: None, max_offset_millis }),
    {
        NtpHandle { offset: None, max_offset_millis }
    }

    pub fn offset(&self) -> (r: Option<i64>)
        ensures
            r == self.offset,
    {
        self.offset
    }

    pub fn max_offset_millis(&self) -> (m: i64)
        ensures
            m == self.max_offset_millis,
    {
        self.max_offset_millis
    }

    /// The stamp of an instant, or nothing while there is no healthy offset.
    pub fn tick_now(&self, unix_millis: i64) -> (t: Option<TickStamp>)
        ensures
            t is Some <==> self.healthy(),
            t matches Some(stamp) ==> stamp.0 == tick_number(
                saturated_sum(unix_millis as int, self.offset->0 as int),
            ),
    {
        let discipline = NtpDiscipline {
            offset_millis: self.offset,
            max_offset_millis: self.max_offset_millis,
        };
        discipline.tick_at(unix_millis)
    }

    /// Whether the offset is there and no larger than the tolerance.
    pub fn is_healthy(&self) -> (b: bool)
        ensures
            b == self.healthy(),
    {
        match self.offset {
            None => false,
            Some(offset) => is_offset_within(offset, self.max_offset_millis),
        }
    }
}

/// What a round of queries is folded into.
#[derive(Debug, PartialEq, Eq)]
pub struct NtpSync {
    pub servers: Vec<String>,
    pub discipline: NtpDiscipline,
    pub filtered: Option<i64>,
}

/// What came of a round: the new offset, and whether it is to be shared.
#[derive(Debug, Clone, Copy, PartialEq, Eq, Structural)]
pub struct NtpRefresh {
    pub offset: i64,
    pub shared: bool,
}

impl NtpSync {
    /// A fresh pair of folder and reader.
    pub fn new(config: NtpConfig) -> (r: (Self, NtpHandle))
        ensures
            r.0.servers == config.servers,
            r.0.discipline == (NtpDiscipline {
                offset_millis: None,
                max_offset_millis: config.max_offset_millis,
            }),
            r.0.filtered is None,
            r.1 == (NtpHandle { offset: None, max_offset_millis: config.max_offset_millis }),
    {
        let max_offset_millis: i64 = config.max_offset_millis;
        let sync = NtpSync {
            servers: config.servers,
            discipline: NtpDiscipline::unconfigured(max_offset_millis),
            filtered: None,
        };
        (sync, NtpHandle::undisciplined(max_offset_millis))
    }

    /// Folds the samples of a round in. A round without a sample keeps the
    /// offset; an offset beyond the tolerance is not to be shared.
    pub fn absorb(&mut self, samples: &mut [i64]) -> (r: Option<NtpRefresh>)
        ensures
            r is None <==> old(samples)@.len() == 0,
            r is None ==> *final(self) == *old(self),
            r matches Some(next) ==> {
                &&& next.offset == filtered_step(
                    old(self).filtered,
                    median_of(sorted_samples(old(samples)@)),
                )
                &&& next.shared == offset_within(
                    next.offset as int,
                    old(self).discipline.max_offset_millis as int,
                )
                &&& final(self).filtered == Some(next.offset)
                &&& final(self).discipline == (NtpDiscipline {
                    offset_millis: Some(next.offset),
                    ..old(self).discipline
                })
                &&& final(self).servers == old(self).servers
            },
    {
        match median_offset(samples) {
            None => None,
            Some(median) => {
                let next: i64 = low_pass_filter(self.filtered, median);
                self.filtered = Some(next);
                let shared: bool = is_offset_within(next, self.discipline.max_offset_millis);
                self.discipline.observe(next);
                Some(NtpRefresh { offset: next, shared })
            },
        }
    }

    /// The latest offset.
    pub fn offset(&self) -> (r: Option<i64>)
        ensures
            r == self.filtered,
    {
        self.filtered
    }
}

/// How often `c` stands in `s`.
pub open spec fn count_of(s: Seq<char>, c: char) -> nat
    decreases s.len(),
{
    if s.len() == 0 {
        0
    } else {
        count_of(s.drop_last(), c) + (if s.last() == c {
            1nat
        } else {
            0nat
        })
    }
}

/// `i` is the place of the first `c` in `s` behind the first character.
pub open spec fn first_inside(s: Seq<char>, c: char, i: int) -> bool {
    &&& 1 <= i < s.len()
    &&& s[i] == c
    &&& forall|j: int| 1 <= j < i ==> #[trigger] s[j] != c
}

/// Behind the first closing bracket stands a colon and something more.
pub open spec fn bracket_names_port(s: Seq<char>) -> bool {
    exists|i: int| #[trigger] first_inside(s, ']', i) && i + 2 < s.len() && s[i + 1] == ':'
}

/// Only digits stand behind some colon, and at least one.
pub open spec fn colon_names_port(s: Seq<char>) -> bool {
    exists|k: int|
        0 <= k < s.len() - 1 && #[trigger] s[k] == ':' && forall|j: int|
            k < j < s.len() ==> '0' <= #[trigger] s[j] <= '9'
}

/// The address to dial: the default port is added unless one is named, and a
/// bare address with several colons is put in brackets.
pub open spec fn dial_text(s: Seq<char>) -> Seq<char> {
    if s.len() > 0 && s[0] == '[' {
        if bracket_names_port(s) {
            s
        } else {
            s + ":123"@
        }
    } else if count_of(s, ':') >= 2 {
        "["@ + s + "]:123"@
    } else if count_of(s, ':') == 1 && colon_names_port(s) {
        s
    } else {
        s + ":123"@
    }
}

fn count_char(s: &Vec<char>, c: char) -> (n: usize)
    ensures
        n == count_of(s@, c),
        n <= s@.len(),
{
    let mut n: usize = 0;
    let mut i: usize = 0;
    while i < s.len()
        invariant
            i <= s@.len(),
            n <= i,
            n == count_of(s@.take(i as int), c),
        decreases s@.len() - i,
    {
        proof {
            assert(s@.take(i + 1).drop_last() =~= s@.take(i as int));
        }
        if s[i] == c {
            n = n + 1;
        }
        i = i + 1;
    }
    proof {
        assert(s@.take(i as int) =~= s@);
    }
    n
}

fn has_bracket_port(s: &Vec<char>) -> (b: bool)
    ensures
        b == bracket_names_port(s@),
{
    let mut i: usize = 1;
    while i < s.len() && s[i] != ']'
        invariant
            1 <= i,
            i <= s@.len() || i == 1,
            forall|j: int| 1 <= j < i ==> #[trigger] s@[j] != ']',
        decreases s@.len() - i,
    {
        i = i + 1;
    }
    if i >= s.len() {
        return false;
    }
    proof {
        assert(first_inside(s@, ']', i as int));
        assert forall|k: int| #[trigger] first_inside(s@, ']', k) implies k == i by {
            if k < i {
                assert(s@[k] != ']');
            }
            if i < k {
                assert(s@[i as int] != ']');
            }
        }
    }
    s.len() - i > 2 && s[i + 1] == ':'
}

fn has_colon_port(s: &Vec<char>) -> (b: bool)
    ensures
        b == colon_names_port(s@),
{
    let mut i: usize = s.len();
    while i > 0 && '0' <= s[i - 1] && s[i - 1] <= '9'
        invariant
            i <= s@.len(),
            forall|j: int| i <= j < s@.len() ==> '0' <= #[trigger] s@[j] <= '9',
        decreases i,
    {
        i = i - 1;
    }
    if i == 0 {
        proof {
            assert forall|k: int| 0 <= k < s@.len() - 1 implies #[trigger] s@[k] != ':' by {}
        }
        return false;
    }
    let b: bool = s[i - 1] == ':' && i < s.len();
    proof {
        if b {
            assert(s@[i - 1] == ':');
        } else if colon_names_port(s@) {
            let k = choose|k: int|
                0 <= k < s@.len() - 1 && #[trigger] s@[k] == ':' && forall|j: int|
                    k < j < s@.len() ==> '0' <= #[trigger] s@[j] <= '9';
            if k < i - 1 {
                assert('0' <= s@[i - 1] <= '9');
            }
            if k >= i {
                assert('0' <= s@[k] <= '9');
            }
        }
    }
    b
}

/// The address to dial for a server.
pub fn with_default_port(server: &str) -> (r: String)
    ensures
        r@ == dial_text(server@),
{
    let s = chars_of(server);
    let named: bool = if s.len() > 0 && s[0] == '[' {
        has_bracket_port(&s)
    } else {
        let colons: usize = count_char(&s, ':');
        if colons >= 2 {
            let mut r = String::from_str("[");
            r.append(server);
            r.append("]:123");
            return r;
        }
        colons == 1 && has_colon_port(&s)
    };
    let mut r = String::from_str(server);
    if !named {
        r.append(":123");
    }
    r
}

proof fn lemma_count_finds(s: Seq<char>, c: char)
    ensures
        count_of(s, c) > 0 <==> s.contains(c),
    decreases s.len(),
{
    if s.len() > 0 {
        lemma_count_finds(s.drop_last(), c);
        if s.contains(c) {
            let i = choose|i: int| 0 <= i < s.len() && s[i] == c;
            if i < s.len() - 1 {
                assert(s.drop_last()[i] == c);
                assert(s.drop_last().contains(c));
            }
        }
        if s.drop_last().contains(c) {
            let i = choose|i: int| 0 <= i < s.drop_last().len() && s.drop_last()[i] == c;
            assert(s[i] == c);
        }
        if s.last() == c {
            assert(s[s.len() - 1] == c);
        }
    }
}

/// Whatever the server, the address to dial names a port; a server without a
/// colon gets the default one.
pub proof fn lemma_dial_names_a_port(s: Seq<char>)
    ensures
        dial_text(s).contains(':'),
        !s.contains(':') ==> dial_text(s) == s + ":123"@,
{
    reveal_strlit(":123");
    reveal_strlit("]:123");
    reveal_strlit("[");
    lemma_count_finds(s, ':');
    let d = dial_text(s);
    if s.len() > 0 && s[0] == '[' && bracket_names_port(s) {
        let i = choose|i: int| #[trigger]
            first_inside(s, ']', i) && i + 2 < s.len() && s[i + 1] == ':';
        assert(d[i + 1] == ':');
        assert(s.contains(s[i + 1]));
    } else if d == s {
        assert(s.contains(':'));
    } else if d == s + ":123"@ {
        assert(d[s.len() as int] == ':');
    } else {
        assert(d == "["@ + s + "]:123"@);
        assert(d[s.len() as int + 2] == ':');
    }
}

/// The whole seconds of an instant on the network clock.
pub open spec fn ntp_seconds(millis: int) -> int {
    millis / 1000 + NTP_UNIX_EPOCH_OFFSET_SECS
}

/// The part of a second in an instant, in units of which a second has two to
/// the power of 32, rounded.
pub open spec fn ntp_fraction(millis: int) -> int {
    ((millis % 1000) * 0x1_0000_0000 + 500) / 1000
}

/// An instant on the network clock: seconds and fraction. Seconds that do not
/// fit are held at the highest number.
pub fn unix_millis_to_ntp_timestamp(millis: i64) -> (r: (u32, u32))
    ensures
        r.0 == (if 0 <= ntp_seconds(millis as int) <= u32::MAX {
            ntp_seconds(millis as int)
        } else {
            u32::MAX as int
        }),
        r.1 == ntp_fraction(millis as int),
{
    let seconds: i64 = floor_div(millis, 1000);
    let sub_second: i64 = floor_rem(millis, 1000);
    let shifted: i64 = saturating_sum(seconds, NTP_UNIX_EPOCH_OFFSET_SECS);
    let whole: u32 = if 0 <= shifted && shifted <= 0xFFFF_FFFF {
        shifted as u32
    } else {
        u32::MAX
    };
    let ticks: u64 = ((sub_second as u64) * 0x1_0000_0000 + 500) / 1000;
    (whole, ticks as u32)
}

/// The Unix instant of an instant on the network clock.
pub open spec fn unix_instant(seconds: int, fraction: int) -> int {
    (seconds - NTP_UNIX_EPOCH_OFFSET_SECS) * 1000 + (fraction * 1000 + 0x8000_0000)
        / 0x1_0000_0000
}

/// The Unix instant of an instant on the network clock, to the nearest millisecond.
pub fn ntp_timestamp_to_unix_millis(seconds: u32, fraction: u32) -> (m: i64)
    ensures
        m == unix_instant(seconds as int, fraction as int),
{
    let whole: i64 = (seconds as i64 - NTP_UNIX_EPOCH_OFFSET_SECS) * 1000;
    let scaled: i64 = fraction as i64 * 1000 + 0x8000_0000;
    whole + scaled / 0x1_0000_0000
}

/// Converting an instant that the network clock can name there and back gives
/// it again.
pub proof fn lemma_timestamp_roundtrip(millis: int)
    requires
        0 <= ntp_seconds(millis) <= u32::MAX,
    ensures
        unix_instant(ntp_seconds(millis), ntp_fraction(millis)) == millis,
        0 <= ntp_fraction(millis) <= u32::MAX,
{
    let sub = millis % 1000;
    let x = sub * 0x1_0000_0000;
    let f = (x + 500) / 1000;
    assert(1000 * f <= x + 500 && 1000 * f > x - 500);
    assert((f * 1000 + 0x8000_0000) / 0x1_0000_0000 == sub);
}

/// The packet of a request: its first byte, and the instant of sending at its end.
pub open spec fn is_request(packet: Seq<u8>, seconds: int, fraction: int) -> bool {
    &&& packet.len() == NTP_PACKET_LEN
    &&& packet[0] == NTP_CLIENT_REQUEST
    &&& forall|i: int| 1 <= i < 40 ==> #[trigger] packet[i] == 0
    &&& be32(packet.subrange(40, 44)) == seconds
    &&& be32(packet.subrange(44, 48)) == fraction
}

/// A request that is sent at an instant.
pub fn build_request_packet(transmit_unix_millis: i64) -> (packet: [u8; 48])
    ensures
        is_request(
            packet@,
            if 0 <= ntp_seconds(transmit_unix_millis as int) <= u32::MAX {
                ntp_seconds(transmit_unix_millis as int)
            } else {
                u32::MAX as int
            },
            ntp_fraction(transmit_unix_millis as int),
        ),
{
    let (seconds, fraction) = unix_millis_to_ntp_timestamp(transmit_unix_millis);
    let s: [u8; 4] = split_be32(seconds);
    let f: [u8; 4] = split_be32(fraction);
    let mut packet: [u8; 48] = [0u8; 48];
    packet[0] = NTP_CLIENT_REQUEST;
    packet[40] = s[0];
    packet[41] = s[1];
    packet[42] = s[2];
    packet[43] = s[3];
    packet[44] = f[0];
    packet[45] = f[1];
    packet[46] = f[2];
    packet[47] = f[3];
    packet
}

/// The instant at which the server received a request, from its reply.
pub open spec fn receive_instant(packet: Seq<u8>) -> int {
    unix_instant(be32(packet.subrange(32, 36)), be32(packet.subrange(36, 40)))
}

/// The instant at which the server replied.
pub open spec fn transmit_instant(packet: Seq<u8>) -> int {
    unix_instant(be32(packet.subrange(40, 44)), be32(packet.subrange(44, 48)))
}

fn word_at(packet: &[u8], at: usize) -> (x: u32)
    requires
        at + 4 <= packet@.len(),
    ensures
        x == be32(packet@.subrange(at as int, at + 4)),
{
    let ghost four = packet@.subrange(at as int, at + 4);
    assert(four[0] == packet@[at as int] && four[1] == packet@[at + 1] && four[2] == packet@[at
        + 2] && four[3] == packet@[at + 3]);
    join_be32(packet[at], packet[at + 1], packet[at + 2], packet[at + 3])
}

/// The two instants that a reply names; a packet that is too short names none.
pub fn parse_server_times(packet: &[u8]) -> (r: Option<(i64, i64)>)
    ensures
        r is Some <==> packet@.len() >= 48,
        r matches Some(times) ==> times.0 == receive_instant(packet@) && times.1
            == transmit_instant(packet@),
{
    if packet.len() < 48 {
        return None;
    }
    Some(
        (
            ntp_timestamp_to_unix_millis(word_at(packet, 32), word_at(packet, 36)),
            ntp_timestamp_to_unix_millis(word_at(packet, 40), word_at(packet, 44)),
        ),
    )
}

/// What a request carries as its instant of sending is read back from the same place.
pub proof fn lemma_request_carries_instant(packet: Seq<u8>, millis: int)
    requires
        0 <= ntp_seconds(millis) <= u32::MAX,
        is_request(packet, ntp_seconds(millis), ntp_fraction(millis)),
    ensures
        transmit_instant(packet) == millis,
{
    lemma_timestamp_roundtrip(millis);
}

/// Half the sum of how far the server was ahead on the way there and on the
/// way back, rounded towards zero.
pub open spec fn offset_of(
    client_send: int,
    server_recv: int,
    server_tx: int,
    client_recv: int,
) -> int {
    truncated_quotient(
        saturated_sum(
            saturated_difference(server_recv, client_send),
            saturated_difference(server_tx, client_recv),
        ),
        2,
    )
}

/// The offset of the server's clock from the four instants of an exchange.
pub fn compute_offset(
    client_send_ms: i64,
    server_recv_ms: i64,
    server_tx_ms: i64,
    client_recv_ms: i64,
) -> (offset: i64)
    ensures
        offset == offset_of(
            client_send_ms as int,
            server_recv_ms as int,
            server_tx_ms as int,
            client_recv_ms as int,
        ),
{
    let inbound: i64 = saturating_difference(server_recv_ms, client_send_ms);
    let outbound: i64 = saturating_difference(server_tx_ms, client_recv_ms);
    truncating_div(saturating_sum(inbound, outbound), 2)
}

/// A delay that is the same both ways cancels out: what is left is how far the
/// server's clock is ahead.
pub proof fn lemma_symmetric_delay_cancels(start: int, ahead: int, delay: int, stay: int)
    requires
        i64::MIN / 4 < start < i64::MAX / 4,
        i64::MIN / 8 < ahead < i64::MAX / 8,
        0 <= delay < i64::MAX / 8,
        0 <= stay < i64::MAX / 8,
    ensures
        offset_of(
            start,
            start + delay + ahead,
            start + delay + ahead + stay,
            start + delay + stay + delay,
        ) == ahead,
{
}

/// The samples in ascending order.
pub open spec fn sorted_samples(s: Seq<i64>) -> Seq<i64> {
    stable_sorted(s, |a: i64, b: i64| a < b)
}

/// The middle of sorted samples; of two middle ones, the point halfway, rounded
/// towards the lower.
pub open spec fn median_of(s: Seq<i64>) -> int {
    let middle = s.len() as int / 2;
    if s.len() % 2 == 0 {
        let lower = s[middle - 1] as int;
        let upper = s[middle] as int;
        saturated_sum(lower, truncated_quotient(saturated_difference(upper, lower), 2))
    } else {
        s[middle] as int
    }
}

/// The offset that a reply of `len` bytes tells, from the four instants of the
/// exchange; a reply that is too short tells none. `buffer` is where the reply
/// was received.
pub fn offset_from_reply(sent_millis: i64, buffer: &[u8], len: usize, received_millis: i64) -> (r:
    Option<i64>)
    ensures
        r is Some <==> len >= 48 && buffer@.len() >= 48,
        r matches Some(offset) ==> offset == offset_of(
            sent_millis as int,
            receive_instant(buffer@),
            transmit_instant(buffer@),
            received_millis as int,
        ),
{
    if len < 48 {
        return None;
    }
    match parse_server_times(buffer) {
        Some((server_recv, server_tx)) => Some(
            compute_offset(sent_millis, server_recv, server_tx, received_millis),
        ),
        None => None,
    }
}

/// Sorts the samples and gives their median; there is none without samples.
pub fn median_offset(values: &mut [i64]) -> (r: Option<i64>)
    ensures
        final(values)@ == sorted_samples(old(values)@),
        r is None <==> old(values)@.len() == 0,
        r matches Some(m) ==> m == median_of(sorted_samples(old(values)@)),
{
    let ghost start = values@;
    let before = |a: &i64, b: &i64| -> (r: bool)
        ensures
            r == (*a < *b),
        { *a < *b };
    sort_stable(values, before, Ghost(|a: i64, b: i64| a < b));
    proof {
        crate::sorting::lemma_sort_multiset(start, |a: i64, b: i64| a < b);
        vstd::seq_lib::to_multiset_len(start);
        vstd::seq_lib::to_multiset_len(values@);
    }
    let n: usize = values.len();
    if n == 0 {
        return None;
    }
    let middle: usize = n / 2;
    if n % 2 == 0 {
        let upper: i64 = values[middle];
        let lower: i64 = values[middle - 1];
        let step: i64 = truncating_div(saturating_difference(upper, lower), 2);
        Some(saturating_sum(lower, step))
    } else {
        Some(values[middle])
    }
}

/// The first sample stands; after that each moves the offset a part of the way.
pub open spec fn filtered_step(previous: Option<i64>, sample: int) -> int {
    match previous {
        None => sample,
        Some(prior) => saturated_sum(
            prior as int,
            truncated_quotient(saturated_difference(sample, prior as int), FILTER_DIVISOR as int),
        ),
    }
}

/// Moves the filtered offset towards a sample.
pub fn low_pass_filter(previous: Option<i64>, sample: i64) -> (next: i64)
    ensures
        next == filtered_step(previous, sample as int),
{
    match previous {
        None => sample,
        Some(prior) => {
            let step: i64 = truncating_div(saturating_difference(sample, prior), FILTER_DIVISOR);
            saturating_sum(prior, step)
        },
    }
}

/// The filter never overshoots: the new offset lies between the old one and
/// the sample, and stays where they agree.
pub proof fn lemma_filter_never_overshoots(prior: i64, sample: i64)
    ensures
        prior <= sample ==> prior <= filtered_step(Some(prior), sample as int) <= sample,
        sample <= prior ==> sample <= filtered_step(Some(prior), sample as int) <= prior,
{
}

/// The network clock counts seconds from 2,208,988,800 at the Unix epoch, and
/// fractions of which two to the power of 32 make a second, to the nearest.
pub proof fn lemma_network_clock_counts(millis: int)
    ensures
        ntp_seconds(0) == 2_208_988_800,
        ntp_seconds(millis + 1000) == ntp_seconds(millis) + 1,
        ntp_fraction(millis + 1000) == ntp_fraction(millis),
        ntp_seconds(millis) == 2_208_988_800 + (millis - millis % 1000) / 1000,
        -500 <= 1000 * ntp_fraction(millis) - (millis % 1000) * 0x1_0000_0000 <= 500,
{
}

/// A whole second more on the network clock is a thousand milliseconds more, and
/// a fraction is rounded to the nearest millisecond.
pub proof fn lemma_unix_clock_counts(seconds: int, fraction: int)
    requires
        0 <= fraction < 0x1_0000_0000,
    ensures
        unix_instant(2_208_988_800, 0) == 0,
        unix_instant(seconds + 1, fraction) == unix_instant(seconds, fraction) + 1000,
        ({
            let millis = unix_instant(seconds, fraction) - unix_instant(seconds, 0);
            -0x8000_0000 < millis * 0x1_0000_0000 - fraction * 1000 <= 0x8000_0000
        }),
{
}

/// A reply tells when it was received in its ninth and tenth words and when it
/// was sent in its eleventh and twelfth.
pub proof fn lemma_reply_words(packet: Seq<u8>)
    requires
        packet.len() >= 48,
    ensures
        receive_instant(packet) == unix_instant(
            be32(seq![packet[32], packet[33], packet[34], packet[35]]),
            be32(seq![packet[36], packet[37], packet[38], packet[39]]),
        ),
        transmit_instant(packet) == unix_instant(
            be32(seq![packet[40], packet[41], packet[42], packet[43]]),
            be32(seq![packet[44], packet[45], packet[46], packet[47]]),
        ),
{
    assert(packet.subrange(32, 36) =~= seq![packet[32], packet[33], packet[34], packet[35]]);
    assert(packet.subrange(36, 40) =~= seq![packet[36], packet[37], packet[38], packet[39]]);
    assert(packet.subrange(40, 44) =~= seq![packet[40], packet[41], packet[42], packet[43]]);
    assert(packet.subrange(44, 48) =~= seq![packet[44], packet[45], packet[46], packet[47]]);
}

/// A request has forty-eight bytes, starts with the client mode of version three,
/// and holds nothing else but the instant at its end.
pub proof fn lemma_request_layout(packet: Seq<u8>, seconds: int, fraction: int)
    requires
        is_request(packet, seconds, fraction),
    ensures
        packet.len() == 48,
        packet[0] == 27,
        forall|i: int| 1 <= i < 40 ==> #[trigger] packet[i] == 0,
        be32(seq![packet[40], packet[41], packet[42], packet[43]]) == seconds,
        be32(seq![packet[44], packet[45], packet[46], packet[47]]) == fraction,
{
    assert(packet.subrange(40, 44) =~= seq![packet[40], packet[41], packet[42], packet[43]]);
    assert(packet.subrange(44, 48) =~= seq![packet[44], packet[45], packet[46], packet[47]]);
}

/// The offset is half of what the server's two instants are ahead of the client's
/// together, rounded towards zero.
pub proof fn lemma_offset_is_the_mean_lead(sent: int, received: int, replied: int, arrived: int)
    requires
        -0x1000_0000_0000_0000 <= sent <= 0x1000_0000_0000_0000,
        -0x1000_0000_0000_0000 <= received <= 0x1000_0000_0000_0000,
        -0x1000_0000_0000_0000 <= replied <= 0x1000_0000_0000_0000,
        -0x1000_0000_0000_0000 <= arrived <= 0x1000_0000_0000_0000,
    ensures
        ({
            let lead = (received - sent) + (replied - arrived);
            let offset = offset_of(sent, received, replied, arrived);
            &&& lead >= 0 ==> 2 * offset <= lead <= 2 * offset + 1
            &&& lead <= 0 ==> 2 * offset - 1 <= lead <= 2 * offset
        }),
{
}

/// The median of an odd number of samples is the middle one; that of an even
/// number lies halfway between the two middle ones, rounded towards the lower.
pub proof fn lemma_median_stands_in_the_middle(s: Seq<i64>, k: int)
    requires
        0 <= k,
    ensures
        s.len() == 2 * k + 1 ==> median_of(s) == s[k],
        s.len() == 2 * k + 2 && s[k] <= s[k + 1] && s[k + 1] - s[k] <= i64::MAX ==> 2 * median_of(s)
            <= s[k] + s[k + 1] <= 2 * median_of(s) + 1,
{
    if s.len() == 2 * k + 2 {
        assert(s.len() as int / 2 == k + 1);
        assert(s.len() % 2 == 0);
    } else if s.len() == 2 * k + 1 {
        assert(s.len() as int / 2 == k);
        assert(s.len() % 2 == 1);
    }
}

/// The first sample is taken as it is; after that the offset moves a quarter of the
/// way towards each sample, rounded towards staying.
pub proof fn lemma_filter_moves_a_quarter(prior: i64, sample: i64)
    ensures
        filtered_step(None, sample as int) == sample,
        ({
            let gap = sample - prior;
            let step = filtered_step(Some(prior), sample as int) - prior;
            &&& 0 <= gap <= i64::MAX ==> 4 * step <= gap < 4 * step + 4
            &&& i64::MIN <= gap <= 0 ==> 4 * step - 4 < gap <= 4 * step
        }),
{
}

/// Counting a character goes one by one.
pub proof fn lemma_characters_are_counted(s: Seq<char>, last: char, c: char)
    ensures
        count_of(Seq::<char>::empty(), c) == 0,
        count_of(s.push(last), c) == count_of(s, c) + (if last == c {
            1int
        } else {
            0
        }),
{
    assert(s.push(last).drop_last() =~= s);
}

/// A server in brackets is dialled as it is exactly if a port stands behind the
/// first closing bracket; a bare address with several colons is put in brackets;
/// any other server is dialled as it is exactly if only digits stand behind its
/// one colon. Everything else gets the default port.
pub proof fn lemma_default_port_is_added(s: Seq<char>)
    ensures
        ({
            let bracketed = s.len() > 0 && s[0] == '[';
            let port_behind_bracket = exists|i: int|
                1 <= i && i + 2 < s.len() && #[trigger] s[i] == ']' && s[i + 1] == ':' && forall|j: int|
                    1 <= j < i ==> #[trigger] s[j] != ']';
            let port_behind_colon = exists|k: int|
                0 <= k < s.len() - 1 && #[trigger] s[k] == ':' && forall|j: int|
                    k < j < s.len() ==> '0' <= #[trigger] s[j] <= '9';
            let colons = count_of(s, ':');
            &&& bracketed && port_behind_bracket ==> dial_text(s) == s
            &&& bracketed && !port_behind_bracket ==> dial_text(s) == s + ":123"@
            &&& !bracketed && colons >= 2 ==> dial_text(s) == "["@ + s + "]:123"@
            &&& !bracketed && colons == 1 && port_behind_colon ==> dial_text(s) == s
            &&& !bracketed && colons == 1 && !port_behind_colon ==> dial_text(s) == s + ":123"@
            &&& !bracketed && colons == 0 ==> dial_text(s) == s + ":123"@
        }),
{
    if exists|i: int|
        1 <= i && i + 2 < s.len() && #[trigger] s[i] == ']' && s[i + 1] == ':' && forall|j: int|
            1 <= j < i ==> #[trigger] s[j] != ']' {
        let i = choose|i: int|
            1 <= i && i + 2 < s.len() && #[trigger] s[i] == ']' && s[i + 1] == ':' && forall|j: int|
                1 <= j < i ==> #[trigger] s[j] != ']';
        assert(first_inside(s, ']', i));
    } else if bracket_names_port(s) {
        let i = choose|i: int| #[trigger]
            first_inside(s, ']', i) && i + 2 < s.len() && s[i + 1] == ':';
        assert(s[i] == ']');
    }
}

/// The highest number stands for no offset, every other for itself, and a reader
/// is healthy exactly with an offset whose size is tolerated.
pub proof fn lemma_offsets_are_readable(shared: SharedOffset, h: NtpHandle)
    ensures
        shared.millis == i64::MAX <==> shared.value() is None,
        shared.value() matches Some(n) ==> n == shared.millis,
        h.offset is None ==> !h.healthy(),
        h.offset matches Some(n) ==> (h.healthy() <==> offset_within(
            n as int,
            h.max_offset_millis as int,
        )),
{
}

/// Sorted samples are the samples in ascending order, each as often as it came.
pub proof fn lemma_samples_are_sorted(s: Seq<i64>)
    ensures
        sorted_samples(s).len() == s.len(),
        sorted_samples(s).to_multiset() == s.to_multiset(),
        forall|i: int, j: int|
            0 <= i < j < s.len() ==> #[trigger] sorted_samples(s)[i] <= #[trigger] sorted_samples(
                s,
            )[j],
{
    let lt = |a: i64, b: i64| a < b;
    assert(crate::sorting::strict_weak_order(lt));
    crate::sorting::lemma_sort_multiset(s, lt);
    crate::sorting::lemma_sort_in_order(s, lt);
    broadcast use vstd::seq_lib::group_to_multiset_ensures;
    assert(sorted_samples(s).to_multiset().len() == s.to_multiset().len());
    assert forall|i: int, j: int| 0 <= i < j < s.len() implies #[trigger] sorted_samples(s)[i]
        <= #[trigger] sorted_samples(s)[j] by {
        assert(!lt(sorted_samples(s)[j], sorted_samples(s)[i]));
    }
}

} // verus!
