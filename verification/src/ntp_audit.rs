//! Audit of the clock wiring: the tick grid, the wrap, the discipline and the
//! time servers.

use vstd::prelude::*;
use vstd::string::StringExecFns;
use crate::ntp::DEFAULT_NTP_SERVER;
use crate::text::{
    before_char, chars_of, lowercase_of, lowercased, octet_of, octet_value, same_text,
    signed_decimal, signed_text, text_starts_with, trimmed, trimmed_before,
};
use crate::time::{
    MILLIS_PER_TICK, NtpDiscipline, TICKS_PER_WRAP, TickStamp, saturated_sum, saturating_sum,
    tick_number,
};

verus! {

pub const AUDIT_MILLIS_PER_TICK: i64 = 50;

pub const AUDIT_TICKS_PER_WRAP: i64 = 48_000;

pub const AUDIT_HALF_TICK_MILLIS: i64 = 25;

pub const AUDIT_NTP_PORT: u16 = 123;

/// What the audit found.
#[derive(Debug, PartialEq, Eq)]
pub struct NtpAuditReport {
    pub quantization_ok: bool,
    pub wrapping_ok: bool,
    pub discipline_ok: bool,
    pub servers_ok: bool,
    pub failures: Vec<String>,
}

impl NtpAuditReport {
    pub fn passed(&self) -> (b: bool)
        ensures
            b == (self.quantization_ok && self.wrapping_ok && self.discipline_ok
                && self.servers_ok),
    {
        self.quantization_ok && self.wrapping_ok && self.discipline_ok && self.servers_ok
    }

    pub fn failure_count(&self) -> (n: usize)
        ensures
            n == self.failures@.len(),
    {
        self.failures.len()
    }
}

/// The stamp of an instant under an offset of any size; none without an offset.
pub fn audited_tick_at(unix_millis: i64, offset_millis: Option<i64>) -> (t: Option<TickStamp>)
    ensures
        t is Some <==> offset_millis is Some,
        t matches Some(stamp) ==> stamp.0 == tick_number(
            saturated_sum(unix_millis as int, offset_millis->0 as int),
        ),
{
    match offset_millis {
        None => None,
        Some(offset) => Some(TickStamp::from_disciplined_millis(unix_millis, offset)),
    }
}

/// The texts as mathematical values.
pub open spec fn texts_of(s: Seq<String>) -> Seq<Seq<char>> {
    s.map_values(|t: String| t@)
}

/// The configured servers, or the default one if none is configured.
pub open spec fn servers_in_force(configured: Seq<Seq<char>>) -> Seq<Seq<char>> {
    if configured.len() == 0 {
        seq![DEFAULT_NTP_SERVER@]
    } else {
        configured
    }
}

/// The configured servers, or the default one if none is configured.
pub fn effective_ntp_servers(configured: &[String]) -> (r: Vec<String>)
    ensures
        texts_of(r@) == servers_in_force(texts_of(configured@)),
{
    let mut r: Vec<String> = Vec::new();
    if configured.len() == 0 {
        r.push(String::from_str(DEFAULT_NTP_SERVER));
        assert(texts_of(r@) =~= servers_in_force(texts_of(configured@)));
        return r;
    }
    let mut i: usize = 0;
    while i < configured.len()
        invariant
            i <= configured@.len(),
            r@.len() == i,
            forall|j: int| 0 <= j < i ==> (#[trigger] r@[j])@ == configured@[j]@,
        decreases configured@.len() - i,
    {
        r.push(configured[i].clone());
        i = i + 1;
    }
    assert(texts_of(r@) =~= texts_of(configured@));
    r
}

/// An address of the private block that starts with 172: its second part lies
/// between 16 and 31.
pub open spec fn is_private_172(lower: Seq<char>) -> bool {
    "172."@.is_prefix_of(lower) && (octet_of(before_char(lower.skip(4), '.')) matches Some(n) && 16
        <= n <= 31)
}

/// The host is a name or address outside the local machine and the private
/// networks. `lower` is the host in lower case.
pub open spec fn is_outside(host: Seq<char>, lower: Seq<char>) -> bool {
    &&& host.len() > 0
    &&& lower != "localhost"@
    &&& !"127."@.is_prefix_of(lower)
    &&& lower != "127"@
    &&& !"10."@.is_prefix_of(lower)
    &&& !"192.168."@.is_prefix_of(lower)
    &&& !is_private_172(lower)
    &&& lower != "::1"@
    &&& !"fc"@.is_prefix_of(lower)
    &&& !"fd"@.is_prefix_of(lower)
    &&& host.contains('.')
}

/// The host of an entry: what stands before the first colon.
pub open spec fn host_of(entry: Seq<char>) -> Seq<char> {
    before_char(trimmed(entry), ':')
}

/// The entry names a server outside.
pub open spec fn names_outside(entry: Seq<char>) -> bool {
    is_outside(host_of(entry), lowercase_of(host_of(entry)))
}

fn holds_char(text: &str, c: char) -> (b: bool)
    ensures
        b == text@.contains(c),
{
    let s = chars_of(text);
    let mut i: usize = 0;
    while i < s.len()
        invariant
            i <= s@.len(),
            s@ == text@,
            forall|j: int| 0 <= j < i ==> #[trigger] s@[j] != c,
        decreases s@.len() - i,
    {
        if s[i] == c {
            assert(text@[i as int] == c);
            return true;
        }
        i = i + 1;
    }
    false
}

fn in_private_172(lower: &str) -> (b: bool)
    ensures
        b == is_private_172(lower@),
{
    if !text_starts_with(lower, "172.") {
        return false;
    }
    proof {
        reveal_strlit("172.");
        assert("172."@.len() == 4);
    }
    let s = chars_of(lower);
    let mut part: Vec<char> = Vec::new();
    let mut i: usize = 4;
    let ghost rest = lower@.skip(4);
    proof {
        assert(rest.take(0) =~= Seq::<char>::empty());
    }
    while i < s.len() && s[i] != '.'
        invariant
            4 <= i <= s@.len(),
            s@ == lower@,
            rest == lower@.skip(4),
            part@ == rest.take(i - 4),
            forall|j: int| 0 <= j < i - 4 ==> #[trigger] rest[j] != '.',
        decreases s@.len() - i,
    {
        assert(rest[i - 4] == s@[i as int]);
        part.push(s[i]);
        assert(part@ =~= rest.take(i + 1 - 4));
        i = i + 1;
    }
    proof {
        if i < s@.len() {
            assert(rest[i - 4] == s@[i as int]);
        }
        crate::text::lemma_before_char(rest, '.', i - 4);
    }
    match octet_value(part.as_slice()) {
        None => false,
        Some(n) => 16 <= n && n <= 31,
    }
}

/// Whether a host, given also in lower case, lies outside.
pub fn is_external_host(host: &str, lower: &str) -> (b: bool)
    ensures
        b == is_outside(host@, lower@),
{
    if host.is_empty() {
        return false;
    }
    if same_text(lower, "localhost") {
        return false;
    }
    if text_starts_with(lower, "127.") || same_text(lower, "127") {
        return false;
    }
    if text_starts_with(lower, "10.") || text_starts_with(lower, "192.168.") {
        return false;
    }
    if in_private_172(lower) {
        return false;
    }
    if same_text(lower, "::1") || text_starts_with(lower, "fc") || text_starts_with(lower, "fd") {
        return false;
    }
    holds_char(host, '.')
}

/// Whether an entry names a server outside.
pub fn is_external_ntp_entry(entry: &str) -> (b: bool)
    ensures
        b == names_outside(entry@),
{
    let host = trimmed_before(entry, ':');
    let lower = lowercased(host.as_str());
    is_external_host(host.as_str(), lower.as_str())
}

/// For each server that lies not outside, in their order, a failure.
pub open spec fn server_failures(servers: Seq<Seq<char>>) -> Seq<Seq<char>>
    decreases servers.len(),
{
    if servers.len() == 0 {
        Seq::empty()
    } else {
        let before = server_failures(servers.drop_last());
        if names_outside(servers.last()) {
            before
        } else {
            before.push("ntp server "@ + servers.last() + " is not an external timeserver"@)
        }
    }
}

/// The precision is at most half a tick.
pub open spec fn is_precise(max_precision_millis: int) -> bool {
    0 <= max_precision_millis <= AUDIT_HALF_TICK_MILLIS
}

/// All failures of the audit in their order.
pub open spec fn wiring_failures(configured: Seq<Seq<char>>, max_precision_millis: int) -> Seq<
    Seq<char>,
> {
    let precision = if is_precise(max_precision_millis) {
        Seq::empty()
    } else {
        seq![
            "max precision "@ + signed_decimal(max_precision_millis)
                + " exceeds half-tick target "@ + signed_decimal(AUDIT_HALF_TICK_MILLIS as int),
            "discipline failed to apply a sampled clock correction"@,
        ]
    };
    let fallback = if names_outside(DEFAULT_NTP_SERVER@) {
        Seq::empty()
    } else {
        seq!["default ntp server "@ + DEFAULT_NTP_SERVER@ + " is not external"@]
    };
    precision + fallback + server_failures(servers_in_force(configured))
}

fn fail(failures: &mut Vec<String>, message: String)
    ensures
        texts_of(final(failures)@) == texts_of(old(failures)@).push(message@),
{
    let ghost was = failures@;
    failures.push(message);
    assert(texts_of(failures@) =~= texts_of(was).push(message@));
}

/// Whether instants fall on ticks of a twentieth of a second.
fn grid_holds() -> (b: bool)
    ensures
        b,
{
    let zero = TickStamp::from_disciplined_millis(0, 0);
    let below = TickStamp::from_disciplined_millis(49, 0);
    let one = TickStamp::from_disciplined_millis(50, 0);
    let still = TickStamp::from_disciplined_millis(99, 0);
    let two = TickStamp::from_disciplined_millis(100, 0);
    MILLIS_PER_TICK == AUDIT_MILLIS_PER_TICK && zero.0 == 0 && below.0 == 0 && one.0 == 1
        && still.0 == 1 && two.0 == 2
}

/// Whether stamps start again after two days of the game.
fn wrap_holds() -> (b: bool)
    ensures
        b,
{
    let full: i64 = 2_400_000;
    let zero = TickStamp::from_disciplined_millis(full, 0);
    let one = TickStamp::from_disciplined_millis(full + 50, 0);
    let gap: u16 = TickStamp(1).distance_since(TickStamp(47_999));
    TICKS_PER_WRAP == AUDIT_TICKS_PER_WRAP && zero.0 == 0 && one.0 == 1 && gap == 2
}

/// Whether stamps need an offset and follow the one they have.
fn discipline_holds(probe_unix_millis: i64) -> (b: bool)
    ensures
        b,
{
    let undisciplined = NtpDiscipline::unconfigured(i64::MAX);
    let mut healthy = NtpDiscipline::unconfigured(i64::MAX);
    healthy.observe(0);
    let mut corrected = NtpDiscipline::unconfigured(i64::MAX);
    corrected.observe(10_000);
    let want = TickStamp::from_disciplined_millis(probe_unix_millis, 0);
    let corrected_want = TickStamp::from_disciplined_millis(probe_unix_millis, 10_000);
    undisciplined.tick_at(probe_unix_millis).is_none() && is_stamp(
        healthy.tick_at(probe_unix_millis),
        want,
    ) && is_stamp(corrected.tick_at(probe_unix_millis), corrected_want) && audited_tick_at(
        probe_unix_millis,
        None,
    ).is_none() && is_stamp(audited_tick_at(probe_unix_millis, Some(0)), want) && is_stamp(
        audited_tick_at(probe_unix_millis, Some(10_000)),
        corrected_want,
    )
}

fn is_stamp(got: Option<TickStamp>, want: TickStamp) -> (b: bool)
    ensures
        b == (got matches Some(stamp) && stamp.0 == want.0),
{
    match got {
        None => false,
        Some(stamp) => stamp.0 == want.0,
    }
}

/// Holds the clock wiring against what the cluster relies on. The grid, the
/// wrap and the discipline are as they should be on every probe; what can fail
/// is the precision that is asked for and the servers. Every address to dial
/// names a port, so nothing is left to find there.
pub fn audit_ntp_wiring(
    configured: &[String],
    max_precision_millis: i64,
    probe_unix_millis: i64,
) -> (report: NtpAuditReport)
    ensures
        report.quantization_ok,
        report.wrapping_ok,
        report.discipline_ok == is_precise(max_precision_millis as int),
        report.servers_ok == (names_outside(DEFAULT_NTP_SERVER@) && server_failures(
            servers_in_force(texts_of(configured@)),
        ).len() == 0),
        texts_of(report.failures@) == wiring_failures(
            texts_of(configured@),
            max_precision_millis as int,
        ),
{
    let mut failures: Vec<String> = Vec::new();
    assert(texts_of(failures@) =~= Seq::<Seq<char>>::empty());
    let quantization_ok: bool = grid_holds();
    let wrapping_ok: bool = wrap_holds();
    let precision_ok: bool = 0 <= max_precision_millis && max_precision_millis
        <= AUDIT_HALF_TICK_MILLIS;
    if !precision_ok {
        let mut message = String::from_str("max precision ");
        let given = signed_text(max_precision_millis);
        let target = signed_text(AUDIT_HALF_TICK_MILLIS);
        message.append(given.as_str());
        message.append(" exceeds half-tick target ");
        message.append(target.as_str());
        fail(&mut failures, message);
    }
    let discipline_ok: bool = precision_ok && discipline_holds(probe_unix_millis);
    if !discipline_ok {
        fail(
            &mut failures,
            String::from_str("discipline failed to apply a sampled clock correction"),
        );
    }
    let mut servers_ok: bool = true;
    if !is_external_ntp_entry(DEFAULT_NTP_SERVER) {
        servers_ok = false;
        let mut message = String::from_str("default ntp server ");
        message.append(DEFAULT_NTP_SERVER);
        message.append(" is not external");
        fail(&mut failures, message);
    }
    let effective = effective_ntp_servers(configured);
    let ghost start = texts_of(failures@);
    let ghost all = texts_of(effective@);
    let mut i: usize = 0;
    proof {
        assert(start + server_failures(all.take(0)) =~= start);
    }
    while i < effective.len()
        invariant
            i <= effective@.len(),
            all == texts_of(effective@),
            texts_of(failures@) == start + server_failures(all.take(i as int)),
            servers_ok == (names_outside(DEFAULT_NTP_SERVER@) && server_failures(
                all.take(i as int),
            ).len() == 0),
        decreases effective@.len() - i,
    {
        let entry = &effective[i];
        proof {
            assert(all.take(i + 1).drop_last() =~= all.take(i as int));
            assert(all.take(i + 1).last() == entry@);
        }
        if !is_external_ntp_entry(entry.as_str()) {
            servers_ok = false;
            let mut message = String::from_str("ntp server ");
            message.append(entry.as_str());
            message.append(" is not an external timeserver");
            fail(&mut failures, message);
        }
        proof {
            assert(texts_of(failures@) =~= start + server_failures(all.take(i + 1)));
        }
        i = i + 1;
    }
    proof {
        assert(all.take(i as int) =~= all);
        assert(texts_of(failures@) =~= wiring_failures(
            texts_of(configured@),
            max_precision_millis as int,
        ));
    }
    NtpAuditReport { quantization_ok, wrapping_ok, discipline_ok, servers_ok, failures }
}

/// The audit passes exactly if it reports no failure.
pub proof fn lemma_audit_passes_without_failures(
    configured: Seq<Seq<char>>,
    max_precision_millis: int,
)
    ensures
        wiring_failures(configured, max_precision_millis).len() == 0 <==> is_precise(
            max_precision_millis,
        ) && names_outside(DEFAULT_NTP_SERVER@) && server_failures(
            servers_in_force(configured),
        ).len() == 0,
{
}

/// An audit works with the configured servers, and with the default one exactly
/// if none is configured.
pub proof fn lemma_default_server_fills_in(configured: Seq<Seq<char>>)
    ensures
        configured.len() > 0 ==> servers_in_force(configured) == configured,
        configured.len() == 0 ==> servers_in_force(configured).len() == 1 && servers_in_force(
            configured,
        )[0] == "pool.ntp.org"@,
{
}

/// A host is not outside if it is empty, has no dot, is the local machine by name
/// or address, or lies in a private network; any other is.
pub proof fn lemma_outside_means_public(host: Seq<char>, lower: Seq<char>)
    ensures
        is_outside(host, lower) ==> host.len() > 0 && host.contains('.'),
        lower == "localhost"@ || lower == "127"@ || lower == "::1"@ ==> !is_outside(host, lower),
        "127."@.is_prefix_of(lower) || "10."@.is_prefix_of(lower) || "192.168."@.is_prefix_of(lower)
            || "fc"@.is_prefix_of(lower) || "fd"@.is_prefix_of(lower) ==> !is_outside(host, lower),
        "172."@.is_prefix_of(lower) && (octet_of(before_char(lower.skip(4), '.')) matches Some(n)
            && 16 <= n <= 31) ==> !is_outside(host, lower),
        host.len() > 0 && host.contains('.') && lower != "localhost"@ && lower != "127"@ && lower
            != "::1"@ && !"127."@.is_prefix_of(lower) && !"10."@.is_prefix_of(lower)
            && !"192.168."@.is_prefix_of(lower) && !"fc"@.is_prefix_of(lower)
            && !"fd"@.is_prefix_of(lower) && !"172."@.is_prefix_of(lower) ==> is_outside(
            host,
            lower,
        ),
        host.len() > 0 && host.contains('.') && "172."@.is_prefix_of(lower) && lower != "localhost"@
            && lower != "127"@ && lower != "::1"@ && !"127."@.is_prefix_of(lower)
            && !"10."@.is_prefix_of(lower) && !"192.168."@.is_prefix_of(lower)
            && !"fc"@.is_prefix_of(lower) && !"fd"@.is_prefix_of(lower) && !(octet_of(
            before_char(lower.skip(4), '.'),
        ) matches Some(n) && 16 <= n <= 31) ==> is_outside(host, lower),
{
}

/// The host of an entry is what stands before its first colon, without white
/// space around the entry.
pub proof fn lemma_host_stands_before_the_colon(entry: Seq<char>, k: int)
    requires
        0 <= k <= trimmed(entry).len(),
        forall|j: int| 0 <= j < k ==> #[trigger] trimmed(entry)[j] != ':',
        k == trimmed(entry).len() || trimmed(entry)[k] == ':',
    ensures
        host_of(entry) == trimmed(entry).take(k),
        names_outside(entry) == is_outside(host_of(entry), lowercase_of(host_of(entry))),
{
    crate::text::lemma_before_char(trimmed(entry), ':', k);
}

/// Each server that is not outside is one failure, in the order of the servers.
pub proof fn lemma_inner_servers_are_reported(servers: Seq<Seq<char>>, last: Seq<char>)
    ensures
        server_failures(Seq::<Seq<char>>::empty()).len() == 0,
        names_outside(last) ==> server_failures(servers.push(last)) == server_failures(servers),
        !names_outside(last) ==> server_failures(servers.push(last)) == server_failures(
            servers,
        ).push("ntp server "@ + last + " is not an external timeserver"@),
{
    assert(servers.push(last).drop_last() =~= servers);
}

/// A precision is good from zero to twenty-five milliseconds. A bad one is two
/// failures, and those of the servers come last.
pub proof fn lemma_precision_is_half_a_tick(configured: Seq<Seq<char>>, millis: int)
    ensures
        is_precise(millis) <==> 0 <= millis <= 25,
        ({
            let own = server_failures(servers_in_force(configured));
            let all = wiring_failures(configured, millis);
            let fallback = if names_outside("pool.ntp.org"@) {
                0int
            } else {
                1
            };
            &&& is_precise(millis) ==> all.len() == own.len() + fallback
            &&& !is_precise(millis) ==> all.len() == own.len() + fallback + 2
            &&& all.skip(all.len() - own.len()) == own
        }),
{
    let own = server_failures(servers_in_force(configured));
    let all = wiring_failures(configured, millis);
    assert(all.skip(all.len() - own.len()) =~= own);
}

} // verus!
