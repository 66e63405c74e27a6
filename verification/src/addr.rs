//! Socket addresses and their text form.
//!
//! The grammar is the usual one: `a.b.c.d:port` for IPv4, and for IPv6 `[groups]:port` or
//! `[groups%scope]:port`, where `::` stands for one or more groups of zeros and the last two
//! groups may be written as an IPv4 address.
use vstd::prelude::*;
use crate::text;

verus! {

broadcast use vstd::seq::group_seq_axioms;

/// An IP address with a port.
#[derive(Debug, Clone, Copy)]
pub enum SocketAddr {
    /// An IPv4 address.
    V4 { octets: [u8; 4], port: u16 },
    /// An IPv6 address, with the scope that a link-local address needs.
    V6 { segments: [u16; 8], port: u16, scope_id: u32 },
}

/// What a [`SocketAddr`] holds.
pub enum AddrView {
    /// The four octets and the port.
    V4 { octets: Seq<u8>, port: u16 },
    /// The eight groups, the port and the scope.
    V6 { segments: Seq<u16>, port: u16, scope_id: u32 },
}

impl View for SocketAddr {
    type V = AddrView;

    open spec fn view(&self) -> AddrView {
        match *self {
            SocketAddr::V4 { octets, port } => AddrView::V4 { octets: octets@, port },
            SocketAddr::V6 { segments, port, scope_id } => AddrView::V6 {
                segments: segments@,
                port,
                scope_id,
            },
        }
    }
}

impl AddrView {
    /// The number of octets or groups is that of its kind.
    pub open spec fn wf(self) -> bool {
        match self {
            AddrView::V4 { octets, port } => octets.len() == 4,
            AddrView::V6 { segments, port, scope_id } => segments.len() == 8,
        }
    }

    /// The address without the scope.
    pub open spec fn unscoped(self) -> AddrView {
        match self {
            AddrView::V4 { octets, port } => self,
            AddrView::V6 { segments, port, scope_id } => AddrView::V6 {
                segments,
                port,
                scope_id: 0,
            },
        }
    }
}

// ---------------------------------------------------------------------------------------
// Reading
// ---------------------------------------------------------------------------------------

/// A decimal octet: at most three digits, no leading zero.
pub open spec fn octet(s: Seq<char>) -> Option<nat> {
    if s.len() <= 3 && !(s.len() > 1 && s[0] == '0') {
        text::number(s, 10, 255)
    } else {
        None
    }
}

/// Four octets with dots between them.
pub open spec fn ipv4(s: Seq<char>) -> Option<Seq<u8>> {
    let parts = text::split(s, '.');
    if parts.len() == 4 && (forall|i: int| 0 <= i < 4 ==> octet(#[trigger] parts[i]) is Some) {
        Some(Seq::new(4, |i: int| octet(parts[i]).unwrap() as u8))
    } else {
        None
    }
}

/// A decimal port.
pub open spec fn port_number(s: Seq<char>) -> Option<u16> {
    match text::number(s, 10, 0xffff) {
        Some(n) => Some(n as u16),
        None => None,
    }
}

/// An IPv4 address and a port.
pub open spec fn socket_v4(s: Seq<char>) -> Option<AddrView> {
    let parts = text::split(s, ':');
    if parts.len() == 2 && ipv4(parts[0]) is Some && port_number(parts[1]) is Some {
        Some(AddrView::V4 { octets: ipv4(parts[0]).unwrap(), port: port_number(parts[1]).unwrap() })
    } else {
        None
    }
}

/// A group of one to four hexadecimal digits.
pub open spec fn group(s: Seq<char>) -> Option<nat> {
    if s.len() <= 4 {
        text::number(s, 16, 0xffff)
    } else {
        None
    }
}

/// The groups that the pieces write, each its own.
pub open spec fn plain_groups(parts: Seq<Seq<char>>) -> Option<Seq<u16>> {
    if forall|i: int| 0 <= i < parts.len() ==> group(#[trigger] parts[i]) is Some {
        Some(Seq::new(parts.len(), |i: int| group(parts[i]).unwrap() as u16))
    } else {
        None
    }
}

/// The two groups that four octets fill.
pub open spec fn octet_groups(o: Seq<u8>) -> Seq<u16> {
    seq![(o[0] * 256 + o[1]) as u16, (o[2] * 256 + o[3]) as u16]
}

/// The groups of a text with colons between them. Where `v4_last` holds, the last piece may be
/// an IPv4 address and then counts as two groups. The empty text holds no group.
pub open spec fn group_list(s: Seq<char>, v4_last: bool) -> Option<Seq<u16>> {
    let parts = text::split(s, ':');
    if s.len() == 0 {
        Some(Seq::empty())
    } else if v4_last && ipv4(parts.last()) is Some {
        match plain_groups(parts.drop_last()) {
            Some(front) => Some(front + octet_groups(ipv4(parts.last()).unwrap())),
            None => None,
        }
    } else {
        plain_groups(parts)
    }
}

/// The position of the first `::`.
pub open spec fn first_double(s: Seq<char>) -> Option<int>
    decreases s.len(),
{
    if s.len() < 2 {
        None
    } else if s[0] == ':' && s[1] == ':' {
        Some(0)
    } else {
        match first_double(s.skip(1)) {
            Some(i) => Some(i + 1),
            None => None,
        }
    }
}

/// The groups before and after `::` with zeros between them, eight in all.
pub open spec fn fill_zeros(head: Seq<u16>, tail: Seq<u16>) -> Seq<u16> {
    head + Seq::new((8 - head.len() - tail.len()) as nat, |i: int| 0u16) + tail
}

/// The eight groups of an IPv6 address.
pub open spec fn ipv6(s: Seq<char>) -> Option<Seq<u16>> {
    match first_double(s) {
        None => match group_list(s, true) {
            Some(g) => if g.len() == 8 {
                Some(g)
            } else {
                None
            },
            None => None,
        },
        Some(i) => match (group_list(s.take(i), false), group_list(s.skip(i + 2), true)) {
            (Some(head), Some(tail)) => if head.len() + tail.len() <= 7 {
                Some(fill_zeros(head, tail))
            } else {
                None
            },
            _ => None,
        },
    }
}

/// What stands between the brackets: the address and its scope, zero where none is written.
pub open spec fn scoped(s: Seq<char>) -> Option<(Seq<u16>, u32)> {
    let parts = text::split(s, '%');
    if parts.len() == 1 {
        match ipv6(parts[0]) {
            Some(g) => Some((g, 0u32)),
            None => None,
        }
    } else if parts.len() == 2 {
        match (ipv6(parts[0]), text::number(parts[1], 10, 0xffff_ffff)) {
            (Some(g), Some(n)) => Some((g, n as u32)),
            _ => None,
        }
    } else {
        None
    }
}

/// A bracketed IPv6 address and a port.
pub open spec fn socket_v6(s: Seq<char>) -> Option<AddrView> {
    let parts = text::split(s.skip(1), ']');
    if s.len() > 0 && s[0] == '[' && parts.len() == 2 && parts[1].len() > 0 && parts[1][0] == ':' {
        match (scoped(parts[0]), port_number(parts[1].skip(1))) {
            (Some((segments, scope_id)), Some(port)) => Some(
                AddrView::V6 { segments, port, scope_id },
            ),
            _ => None,
        }
    } else {
        None
    }
}

/// The address that a text writes.
pub open spec fn socket_addr(s: Seq<char>) -> Option<AddrView> {
    match socket_v4(s) {
        Some(a) => Some(a),
        None => socket_v6(s),
    }
}

fn read_octet(s: &[char]) -> (r: Option<u8>)
    ensures
        r matches Some(n) ==> octet(s@) == Some(n as nat),
        r is None ==> octet(s@) is None,
{
    if s.len() <= 3 && !(s.len() > 1 && s[0] == '0') {
        match text::read_number(s, 10, 255) {
            Some(n) => Some(n as u8),
            None => None,
        }
    } else {
        None
    }
}

fn read_ipv4(s: &[char]) -> (r: Option<[u8; 4]>)
    ensures
        r matches Some(o) ==> ipv4(s@) == Some(o@),
        r is None ==> ipv4(s@) is None,
{
    let parts = text::split_chars(s, '.');
    let ghost p = text::split(s@, '.');
    assert(p.len() == parts@.len());
    if parts.len() != 4 {
        return None;
    }
    assert(forall|i: int| 0 <= i < 4 ==> p[i] == #[trigger] parts@[i]@);
    let a = read_octet(parts[0].as_slice());
    let b = read_octet(parts[1].as_slice());
    let c = read_octet(parts[2].as_slice());
    let d = read_octet(parts[3].as_slice());
    match (a, b, c, d) {
        (Some(a), Some(b), Some(c), Some(d)) => {
            let o = [a, b, c, d];
            assert(forall|i: int| 0 <= i < 4 ==> octet(#[trigger] p[i]) is Some);
            assert(ipv4(s@).unwrap() =~= o@);
            Some(o)
        },
        _ => {
            assert(octet(p[0]) is None || octet(p[1]) is None || octet(p[2]) is None || octet(
                p[3],
            ) is None);
            None
        },
    }
}

fn read_port(s: &[char]) -> (r: Option<u16>)
    ensures
        r == port_number(s@),
{
    match text::read_number(s, 10, 0xffff) {
        Some(n) => Some(n as u16),
        None => None,
    }
}

fn read_group(s: &[char]) -> (r: Option<u16>)
    ensures
        r matches Some(n) ==> group(s@) == Some(n as nat),
        r is None ==> group(s@) is None,
{
    if s.len() <= 4 {
        match text::read_number(s, 16, 0xffff) {
            Some(n) => Some(n as u16),
            None => None,
        }
    } else {
        None
    }
}

fn read_plain_groups(parts: &[Vec<char>]) -> (r: Option<Vec<u16>>)
    ensures
        r matches Some(g) ==> plain_groups(text::views(parts@)) == Some(g@),
        r is None ==> plain_groups(text::views(parts@)) is None,
{
    let mut g: Vec<u16> = Vec::new();
    let ghost p = text::views(parts@);
    for i in 0..parts.len()
        invariant
            p == text::views(parts@),
            g@.len() == i,
            forall|j: int| 0 <= j < i ==> group(#[trigger] p[j]) == Some(g@[j] as nat),
    {
        assert(p[i as int] == parts@[i as int]@);
        match read_group(parts[i].as_slice()) {
            Some(n) => g.push(n),
            None => {
                assert(group(p[i as int]) is None);
                return None;
            },
        }
    }
    assert(plain_groups(p).unwrap() =~= g@);
    Some(g)
}

fn read_group_list(s: &[char], v4_last: bool) -> (r: Option<Vec<u16>>)
    ensures
        r matches Some(g) ==> group_list(s@, v4_last) == Some(g@),
        r is None ==> group_list(s@, v4_last) is None,
{
    if s.len() == 0 {
        let g: Vec<u16> = Vec::new();
        assert(g@ =~= Seq::<u16>::empty());
        return Some(g);
    }
    let mut parts = text::split_chars(s, ':');
    let ghost p = text::split(s@, ':');
    proof {
        text::lemma_split_nonempty(s@, ':');
    }
    assert(p.last() == parts@[parts@.len() - 1]@);
    if v4_last {
        let last: Option<[u8; 4]> = read_ipv4(parts[parts.len() - 1].as_slice());
        if let Some(o) = last {
            let ghost all = parts@;
            parts.pop();
            assert(text::views(parts@) =~= p.drop_last());
            return match read_plain_groups(parts.as_slice()) {
                Some(mut g) => {
                    let ghost front = g@;
                    g.push(o[0] as u16 * 256 + o[1] as u16);
                    g.push(o[2] as u16 * 256 + o[3] as u16);
                    assert(g@ =~= front + octet_groups(o@));
                    Some(g)
                },
                None => None,
            };
        }
    }
    read_plain_groups(parts.as_slice())
}

fn find_double(s: &[char]) -> (r: Option<usize>)
    ensures
        r matches Some(i) ==> first_double(s@) == Some(i as int) && i + 2 <= s.len(),
        r is None ==> first_double(s@) is None,
{
    let mut i: usize = 0;
    assert(s@.skip(0) =~= s@);
    while i < s.len() && s.len() - i >= 2
        invariant
            i <= s@.len(),
            first_double(s@) == (match first_double(s@.skip(i as int)) {
                Some(k) => Some(k + i),
                None => None::<int>,
            }),
        decreases s@.len() - i,
    {
        if s[i] == ':' && s[i + 1] == ':' {
            return Some(i);
        }
        assert(s@.skip(i as int).skip(1) =~= s@.skip(i + 1));
        i = i + 1;
    }
    None
}

/// The groups before and after `::` put into place.
fn assemble(head: &[u16], tail: &[u16]) -> (a: [u16; 8])
    requires
        head.len() + tail.len() <= 7,
    ensures
        a@ == fill_zeros(head@, tail@),
{
    let mut a: [u16; 8] = [0, 0, 0, 0, 0, 0, 0, 0];
    for k in 0..head.len()
        invariant
            head.len() <= 7,
            a@.len() == 8,
            forall|j: int| 0 <= j < k ==> a@[j] == head@[j],
            forall|j: int| k <= j < 8 ==> a@[j] == 0,
    {
        a[k] = head[k];
    }
    let off: usize = 8 - tail.len();
    for k in 0..tail.len()
        invariant
            head.len() + tail.len() <= 7,
            off == 8 - tail.len(),
            a@.len() == 8,
            forall|j: int| 0 <= j < head@.len() ==> a@[j] == head@[j],
            forall|j: int| head@.len() <= j < off ==> a@[j] == 0,
            forall|j: int| 0 <= j < k ==> a@[off + j] == tail@[j],
    {
        a[off + k] = tail[k];
    }
    assert forall|j: int| 0 <= j < 8 implies a@[j] == fill_zeros(head@, tail@)[j] by {
        if j >= off {
            assert(a@[off + (j - off)] == tail@[j - off]);
        }
    }
    assert(a@ =~= fill_zeros(head@, tail@));
    a
}

fn same_groups(a: &[u16; 8], b: &[u16; 8]) -> (r: bool)
    ensures
        r == (a@ == b@),
{
    for i in 0..8usize
        invariant
            forall|j: int| 0 <= j < i ==> a@[j] == b@[j],
    {
        if a[i] != b[i] {
            return false;
        }
    }
    assert(a@ =~= b@);
    true
}

fn read_ipv6(s: &[char]) -> (r: Option<[u16; 8]>)
    ensures
        r matches Some(g) ==> ipv6(s@) == Some(g@),
        r is None ==> ipv6(s@) is None,
{
    match find_double(s) {
        None => match read_group_list(s, true) {
            Some(g) => if g.len() == 8 {
                let a = [g[0], g[1], g[2], g[3], g[4], g[5], g[6], g[7]];
                assert(a@ =~= g@);
                Some(a)
            } else {
                None
            },
            None => None,
        },
        Some(i) => {
            let front = text::slice_chars(s, 0, i);
            let back = text::slice_chars(s, i + 2, s.len());
            assert(front@ =~= s@.take(i as int));
            assert(back@ =~= s@.skip(i + 2));
            match (read_group_list(front.as_slice(), false), read_group_list(back.as_slice(), true)) {
                (Some(head), Some(tail)) => if head.len() <= 7 && tail.len() <= 7 - head.len() {
                    Some(assemble(head.as_slice(), tail.as_slice()))
                } else {
                    None
                },
                _ => None,
            }
        },
    }
}

fn read_scoped(s: &[char]) -> (r: Option<([u16; 8], u32)>)
    ensures
        r matches Some(p) ==> scoped(s@) == Some((p.0@, p.1)),
        r is None ==> scoped(s@) is None,
{
    let parts = text::split_chars(s, '%');
    let ghost p = text::split(s@, '%');
    assert(p.len() == parts@.len());
    assert(forall|i: int| 0 <= i < p.len() ==> p[i] == #[trigger] parts@[i]@);
    if parts.len() == 1 {
        match read_ipv6(parts[0].as_slice()) {
            Some(g) => Some((g, 0)),
            None => None,
        }
    } else if parts.len() == 2 {
        match (
            read_ipv6(parts[0].as_slice()),
            text::read_number(parts[1].as_slice(), 10, 0xffff_ffff),
        ) {
            (Some(g), Some(n)) => Some((g, n as u32)),
            _ => None,
        }
    } else {
        None
    }
}

fn read_socket_v4(s: &[char]) -> (r: Option<SocketAddr>)
    ensures
        r matches Some(a) ==> socket_v4(s@) == Some(a@),
        r is None ==> socket_v4(s@) is None,
{
    let parts = text::split_chars(s, ':');
    let ghost p = text::split(s@, ':');
    assert(p.len() == parts@.len());
    assert(forall|i: int| 0 <= i < p.len() ==> p[i] == #[trigger] parts@[i]@);
    if parts.len() != 2 {
        return None;
    }
    match (read_ipv4(parts[0].as_slice()), read_port(parts[1].as_slice())) {
        (Some(octets), Some(port)) => Some(SocketAddr::V4 { octets, port }),
        _ => None,
    }
}

fn read_socket_v6(s: &[char]) -> (r: Option<SocketAddr>)
    ensures
        r matches Some(a) ==> socket_v6(s@) == Some(a@),
        r is None ==> socket_v6(s@) is None,
{
    if s.len() == 0 || s[0] != '[' {
        return None;
    }
    let rest = text::slice_chars(s, 1, s.len());
    assert(rest@ =~= s@.skip(1));
    let parts = text::split_chars(rest.as_slice(), ']');
    let ghost p = text::split(s@.skip(1), ']');
    assert(p.len() == parts@.len());
    assert(forall|i: int| 0 <= i < p.len() ==> p[i] == #[trigger] parts@[i]@);
    if parts.len() != 2 || parts[1].len() == 0 || parts[1][0] != ':' {
        return None;
    }
    let digits = text::slice_chars(parts[1].as_slice(), 1, parts[1].len());
    assert(digits@ =~= p[1].skip(1));
    match (read_scoped(parts[0].as_slice()), read_port(digits.as_slice())) {
        (Some((segments, scope_id)), Some(port)) => Some(
            SocketAddr::V6 { segments, port, scope_id },
        ),
        _ => None,
    }
}

// ---------------------------------------------------------------------------------------
// Writing
// ---------------------------------------------------------------------------------------

/// Four octets with dots between them.
pub open spec fn ipv4_text(o: Seq<u8>) -> Seq<char> {
    text::join(o.map_values(|b: u8| text::decimal(b as nat)), '.')
}

/// Groups in hexadecimal with colons between them.
pub open spec fn groups_text(g: Seq<u16>) -> Seq<char> {
    text::join(g.map_values(|n: u16| text::number_text(n as nat, 16)), ':')
}

/// How many groups of zero stand in a row from position `i` on.
pub open spec fn zero_run(g: Seq<u16>, i: int) -> int
    decreases g.len() - i,
{
    if 0 <= i < g.len() && g[i] == 0 {
        1 + zero_run(g, i + 1)
    } else {
        0
    }
}

/// The first of the positions before `n` with the longest run of zeros.
pub open spec fn longest_zeros(g: Seq<u16>, n: int) -> int
    decreases n,
{
    if n <= 0 {
        0
    } else {
        let best = longest_zeros(g, n - 1);
        if zero_run(g, n - 1) > zero_run(g, best) {
            n - 1
        } else {
            best
        }
    }
}

/// Whether the address is an IPv4 address mapped into IPv6.
pub open spec fn is_mapped(g: Seq<u16>) -> bool {
    g[0] == 0 && g[1] == 0 && g[2] == 0 && g[3] == 0 && g[4] == 0 && g[5] == 0xffff
}

/// The four octets that two groups hold.
pub open spec fn group_octets(a: u16, b: u16) -> Seq<u8> {
    seq![(a / 256) as u8, (a % 256) as u8, (b / 256) as u8, (b % 256) as u8]
}

/// An IPv6 address: the longest run of two or more zero groups is left out, and a mapped IPv4
/// address is written with dots.
pub open spec fn ipv6_text(g: Seq<u16>) -> Seq<char> {
    let start = longest_zeros(g, 8);
    let len = zero_run(g, start);
    if is_mapped(g) {
        "::ffff:"@ + ipv4_text(group_octets(g[6], g[7]))
    } else if len > 1 {
        groups_text(g.take(start)) + "::"@ + groups_text(g.skip(start + len))
    } else {
        groups_text(g)
    }
}

/// The address without its port.
pub open spec fn ip_text(a: AddrView) -> Seq<char> {
    match a {
        AddrView::V4 { octets, port } => ipv4_text(octets),
        AddrView::V6 { segments, port, scope_id } => ipv6_text(segments),
    }
}

/// The text of an address.
pub open spec fn addr_text(a: AddrView) -> Seq<char> {
    match a {
        AddrView::V4 { octets, port } => ipv4_text(octets).push(':') + text::decimal(port as nat),
        AddrView::V6 { segments, port, scope_id } => {
            let scope = if scope_id == 0 {
                Seq::<char>::empty()
            } else {
                seq!['%'] + text::decimal(scope_id as nat)
            };
            (seq!['['] + ipv6_text(segments) + scope).push(']') + (seq![':'] + text::decimal(
                port as nat,
            ))
        },
    }
}

fn write_ipv4(o: [u8; 4]) -> (s: String)
    ensures
        s@ == ipv4_text(o@),
{
    let mut parts: Vec<String> = Vec::new();
    for i in 0..4usize
        invariant
            parts@.len() == i,
            forall|j: int| 0 <= j < i ==> (#[trigger] parts@[j])@ == text::decimal(o@[j] as nat),
    {
        parts.push(text::decimal_string(o[i] as u64));
    }
    assert(text::texts(parts@) =~= o@.map_values(|b: u8| text::decimal(b as nat)));
    text::join_strings(parts.as_slice(), '.')
}

fn write_groups(g: &[u16]) -> (s: String)
    ensures
        s@ == groups_text(g@),
{
    let mut parts: Vec<String> = Vec::new();
    for i in 0..g.len()
        invariant
            parts@.len() == i,
            forall|j: int|
                0 <= j < i ==> (#[trigger] parts@[j])@ == text::number_text(g@[j] as nat, 16),
    {
        let v = text::write_number(g[i] as u64, 16);
        parts.push(text::string_of(v.as_slice()));
    }
    assert(text::texts(parts@) =~= g@.map_values(|n: u16| text::number_text(n as nat, 16)));
    text::join_strings(parts.as_slice(), ':')
}

proof fn lemma_zero_run_range(g: Seq<u16>, i: int)
    requires
        0 <= i <= g.len(),
    ensures
        0 <= zero_run(g, i) <= g.len() - i,
        forall|j: int| i <= j < i + zero_run(g, i) ==> g[j] == 0,
    decreases g.len() - i,
{
    if i < g.len() {
        lemma_zero_run_range(g, i + 1);
    }
}

proof fn lemma_longest_range(g: Seq<u16>, n: int)
    requires
        0 <= n <= g.len(),
        g.len() > 0,
    ensures
        0 <= longest_zeros(g, n) < g.len(),
    decreases n,
{
    if n > 0 {
        lemma_longest_range(g, n - 1);
    }
}

fn count_zeros(g: &[u16; 8], i: usize) -> (n: usize)
    requires
        i < 8,
    ensures
        n == zero_run(g@, i as int),
        i + n <= 8,
{
    let mut n: usize = 0;
    while i + n < 8 && g[i + n] == 0
        invariant
            i + n <= 8,
            g@.len() == 8,
            zero_run(g@, i as int) == n + zero_run(g@, i + n),
        decreases 8 - n,
    {
        n = n + 1;
    }
    n
}

fn find_longest_zeros(g: &[u16; 8]) -> (r: usize)
    ensures
        r == longest_zeros(g@, 8),
        r < 8,
{
    let mut best: usize = 0;
    for i in 0..8usize
        invariant
            best < 8,
            best == longest_zeros(g@, i as int),
    {
        if count_zeros(g, i) > count_zeros(g, best) {
            best = i;
        }
    }
    best
}

fn write_ipv6(g: [u16; 8]) -> (s: String)
    ensures
        s@ == ipv6_text(g@),
{
    if g[0] == 0 && g[1] == 0 && g[2] == 0 && g[3] == 0 && g[4] == 0 && g[5] == 0xffff {
        let o: [u8; 4] = [
            (g[6] / 256) as u8,
            (g[6] % 256) as u8,
            (g[7] / 256) as u8,
            (g[7] % 256) as u8,
        ];
        assert(o@ =~= group_octets(g@[6], g@[7]));
        let mut s = String::new();
        s.append("::ffff:");
        s.append(write_ipv4(o).as_str());
        assert(s@ =~= ipv6_text(g@));
        return s;
    }
    let start = find_longest_zeros(&g);
    let len = count_zeros(&g, start);
    let mut all: Vec<u16> = Vec::new();
    for i in 0..8usize
        invariant
            all@ == g@.take(i as int),
    {
        all.push(g[i]);
        assert(g@.take(i + 1) =~= g@.take(i as int).push(g@[i as int]));
    }
    assert(all@ =~= g@);
    if len > 1 {
        let back: Vec<u16> = all.split_off(start + len);
        let dropped: Vec<u16> = all.split_off(start);
        assert(all@ =~= g@.take(start as int));
        assert(back@ =~= g@.skip(start + len));
        let mut s = write_groups(all.as_slice());
        s.append("::");
        s.append(write_groups(back.as_slice()).as_str());
        s
    } else {
        write_groups(all.as_slice())
    }
}

impl SocketAddr {
    /// Reads an address. Gives `None` where the text is not one.
    pub fn parse(s: &str) -> (r: Option<SocketAddr>)
        ensures
            r matches Some(a) ==> socket_addr(s@) == Some(a@),
            r is None ==> socket_addr(s@) is None,
    {
        let v = text::chars_of(s);
        match read_socket_v4(v.as_slice()) {
            Some(a) => Some(a),
            None => read_socket_v6(v.as_slice()),
        }
    }

    /// The text of the address, as [`SocketAddr::parse`] reads it.
    pub fn to_text(&self) -> (s: String)
        ensures
            s@ == addr_text(self@),
    {
        match *self {
            SocketAddr::V4 { octets, port } => {
                let mut s = write_ipv4(octets);
                s.push(':');
                s.append(text::decimal_string(port as u64).as_str());
                s
            },
            SocketAddr::V6 { segments, port, scope_id } => {
                let mut s = String::new();
                s.push('[');
                s.append(write_ipv6(segments).as_str());
                if scope_id != 0 {
                    s.push('%');
                    s.append(text::decimal_string(scope_id as u64).as_str());
                }
                s.push(']');
                s.push(':');
                s.append(text::decimal_string(port as u64).as_str());
                assert(s@ =~= addr_text(self@));
                s
            },
        }
    }

    /// The address without its port and scope.
    pub fn ip_string(&self) -> (s: String)
        ensures
            s@ == ip_text(self@),
    {
        match *self {
            SocketAddr::V4 { octets, port } => write_ipv4(octets),
            SocketAddr::V6 { segments, port, scope_id } => write_ipv6(segments),
        }
    }

    /// Whether two addresses are the same.
    pub fn same(&self, other: &SocketAddr) -> (r: bool)
        ensures
            r == (self@ == other@),
    {
        match (*self, *other) {
            (
                SocketAddr::V4 { octets: a, port: p },
                SocketAddr::V4 { octets: b, port: q },
            ) => p == q && text::same_bytes(a.as_slice(), b.as_slice()),
            (
                SocketAddr::V6 { segments: a, port: p, scope_id: x },
                SocketAddr::V6 { segments: b, port: q, scope_id: y },
            ) => p == q && x == y && same_groups(&a, &b),
            _ => false,
        }
    }
}

// ---------------------------------------------------------------------------------------
// What is written reads back
// ---------------------------------------------------------------------------------------

proof fn lemma_digits_lack(s: Seq<char>, radix: nat, c: char)
    requires
        text::all_digits(s, radix),
        text::digit(c, radix) is None,
    ensures
        !s.contains(c),
{
}

proof fn lemma_octet_text(b: u8)
    ensures
        octet(text::decimal(b as nat)) == Some(b as nat),
        !text::decimal(b as nat).contains('.'),
{
    text::lemma_number_text(b as nat, 10);
    assert(text::decimal(b as nat).len() <= 3) by {
        reveal_with_fuel(text::number_text, 4);
    }
    lemma_digits_lack(text::decimal(b as nat), 10, '.');
}

proof fn lemma_group_text(n: u16)
    ensures
        group(text::number_text(n as nat, 16)) == Some(n as nat),
        text::number_text(n as nat, 16).len() >= 1,
        !text::number_text(n as nat, 16).contains(':'),
        !text::number_text(n as nat, 16).contains('.'),
{
    let t = text::number_text(n as nat, 16);
    text::lemma_number_text(n as nat, 16);
    assert(t.len() <= 4) by {
        reveal_with_fuel(text::number_text, 5);
    }
    lemma_digits_lack(t, 16, ':');
    lemma_digits_lack(t, 16, '.');
}

proof fn lemma_port_text(p: u16)
    ensures
        port_number(text::decimal(p as nat)) == Some(p),
        !text::decimal(p as nat).contains(':'),
        !text::decimal(p as nat).contains(']'),
{
    text::lemma_number_text(p as nat, 10);
    lemma_digits_lack(text::decimal(p as nat), 10, ':');
    lemma_digits_lack(text::decimal(p as nat), 10, ']');
}

/// Whether every character of the text can stand in an address between the brackets.
spec fn is_plain(s: Seq<char>) -> bool {
    forall|i: int|
        0 <= i < s.len() ==> text::digit(#[trigger] s[i], 16) is Some || s[i] == ':' || s[i] == '.'
}

proof fn lemma_plain_join(parts: Seq<Seq<char>>, sep: char)
    requires
        sep == ':' || sep == '.',
        forall|i: int| 0 <= i < parts.len() ==> is_plain(#[trigger] parts[i]),
    ensures
        is_plain(text::join(parts, sep)),
    decreases parts.len(),
{
    if parts.len() > 1 {
        lemma_plain_join(parts.drop_last(), sep);
    }
}

proof fn lemma_plain_number(n: nat, radix: nat)
    requires
        radix == 10 || radix == 16,
    ensures
        is_plain(text::number_text(n, radix)),
{
    text::lemma_number_text(n, radix);
    let t = text::number_text(n, radix);
    assert forall|i: int| 0 <= i < t.len() implies text::digit(#[trigger] t[i], 16) is Some by {
        assert(text::digit(t[i], radix) is Some);
    }
}

proof fn lemma_ipv4_text(o: Seq<u8>)
    requires
        o.len() == 4,
    ensures
        ipv4(ipv4_text(o)) == Some(o),
        is_plain(ipv4_text(o)),
        !ipv4_text(o).contains(':'),
        ipv4_text(o).len() > 0,
{
    let parts = o.map_values(|b: u8| text::decimal(b as nat));
    assert forall|i: int| 0 <= i < parts.len() implies octet(#[trigger] parts[i]) == Some(
        o[i] as nat,
    ) && !parts[i].contains('.') && is_plain(parts[i]) by {
        lemma_octet_text(o[i]);
        lemma_plain_number(o[i] as nat, 10);
    }
    text::lemma_split_join(parts, '.');
    lemma_plain_join(parts, '.');
    assert(ipv4(ipv4_text(o)).unwrap() =~= o);
    assert forall|i: int| 0 <= i < parts.len() implies !(#[trigger] parts[i]).contains(':') by {
        text::lemma_number_text(o[i] as nat, 10);
        lemma_digits_lack(parts[i], 10, ':');
    }
    lemma_join_lacks(parts, '.', ':');
    assert(ipv4_text(o).len() > 0) by {
        if ipv4_text(o).len() == 0 {
            text::lemma_split_whole(ipv4_text(o), '.');
        }
    }
}

pub proof fn lemma_join_lacks(parts: Seq<Seq<char>>, sep: char, c: char)
    requires
        sep != c,
        forall|i: int| 0 <= i < parts.len() ==> !(#[trigger] parts[i]).contains(c),
    ensures
        !text::join(parts, sep).contains(c),
    decreases parts.len(),
{
    if parts.len() == 1 {
        assert(!parts[0].contains(c));
    } else if parts.len() > 1 {
        lemma_join_lacks(parts.drop_last(), sep, c);
        let a = text::join(parts.drop_last(), sep).push(sep);
        let b = parts.last();
        assert(!b.contains(c)) by {
            assert(b == parts[parts.len() - 1]);
        }
        assert forall|i: int| 0 <= i < (a + b).len() implies (a + b)[i] != c by {
            if i < a.len() - 1 {
                assert(text::join(parts.drop_last(), sep).contains((a + b)[i]));
            } else if i >= a.len() {
                assert(b.contains(b[i - a.len()]));
            }
        }
    }
}

/// Whether two colons stand in a row at position `i`.
spec fn double_at(s: Seq<char>, i: int) -> bool {
    s[i] == ':' && s[i + 1] == ':'
}

/// Whether no two colons stand in a row before position `n`.
spec fn single_colons(s: Seq<char>, n: int) -> bool {
    forall|i: int| 0 <= i < n ==> !(#[trigger] double_at(s, i))
}

proof fn lemma_first_double_none(s: Seq<char>)
    requires
        single_colons(s, s.len() - 1),
    ensures
        first_double(s) is None,
    decreases s.len(),
{
    if s.len() >= 2 {
        let t = s.skip(1);
        assert forall|i: int| 0 <= i < t.len() - 1 implies !(#[trigger] double_at(t, i)) by {
            assert(!double_at(s, i + 1));
        }
        lemma_first_double_none(t);
        assert(!double_at(s, 0));
    }
}

proof fn lemma_first_double_at(s: Seq<char>, k: int)
    requires
        0 <= k,
        k + 1 < s.len(),
        double_at(s, k),
        single_colons(s, k),
    ensures
        first_double(s) == Some(k),
    decreases s.len(),
{
    if k > 0 {
        let t = s.skip(1);
        assert forall|i: int| 0 <= i < k - 1 implies !(#[trigger] double_at(t, i)) by {
            assert(!double_at(s, i + 1));
        }
        assert(double_at(t, k - 1));
        lemma_first_double_at(t, k - 1);
        assert(!double_at(s, 0));
    }
}

/// Non-empty pieces without colons, joined by single colons, never give two in a row, nor one
/// at either end.
proof fn lemma_join_single_colons(parts: Seq<Seq<char>>)
    requires
        parts.len() > 0,
        forall|i: int|
            0 <= i < parts.len() ==> (#[trigger] parts[i]).len() > 0 && !parts[i].contains(':'),
    ensures
        ({
            let s = text::join(parts, ':');
            &&& s.len() > 0
            &&& s.last() != ':'
            &&& single_colons(s, s.len() - 1)
        }),
    decreases parts.len(),
{
    let s = text::join(parts, ':');
    let last = parts.last();
    assert(last == parts[parts.len() - 1]);
    assert(forall|i: int| 0 <= i < last.len() ==> last.contains(#[trigger] last[i]));
    if parts.len() > 1 {
        let front = parts.drop_last();
        assert(forall|i: int| 0 <= i < front.len() ==> front[i] == parts[i]);
        lemma_join_single_colons(front);
        let f = text::join(front, ':');
        assert forall|i: int| 0 <= i < s.len() - 1 implies !(#[trigger] double_at(s, i)) by {
            if i < f.len() - 1 {
                assert(s[i] == f[i] && s[i + 1] == f[i + 1]);
                assert(!double_at(f, i));
            } else if i == f.len() - 1 {
                assert(s[i] == f.last());
            } else if i == f.len() {
                assert(s[i + 1] == last[0]);
            } else {
                assert(s[i] == last[i - f.len() - 1]);
            }
        }
    }
}

proof fn lemma_groups_text(g: Seq<u16>, v4_last: bool)
    ensures
        group_list(groups_text(g), v4_last) == Some(g),
        is_plain(groups_text(g)),
        groups_text(g).len() > 0 ==> groups_text(g).last() != ':',
        single_colons(groups_text(g), groups_text(g).len() - 1),
{
    let parts = g.map_values(|n: u16| text::number_text(n as nat, 16));
    let s = groups_text(g);
    assert forall|i: int| 0 <= i < parts.len() implies group(#[trigger] parts[i]) == Some(
        g[i] as nat,
    ) && parts[i].len() > 0 && !parts[i].contains(':') && !parts[i].contains('.') && is_plain(
        parts[i],
    ) by {
        lemma_group_text(g[i]);
        lemma_plain_number(g[i] as nat, 16);
    }
    lemma_plain_join(parts, ':');
    if g.len() == 0 {
        assert(group_list(s, v4_last).unwrap() =~= g);
    } else {
        lemma_join_single_colons(parts);
        text::lemma_split_join(parts, ':');
        let last = parts.last();
        assert(last == parts[parts.len() - 1]);
        text::lemma_split_whole(last, '.');
        assert(ipv4(last) is None);
        assert(plain_groups(parts).unwrap() =~= g);
    }
}

proof fn lemma_octets_of_groups(a: u16, b: u16)
    ensures
        octet_groups(group_octets(a, b)) == seq![a, b],
{
    assert(octet_groups(group_octets(a, b)) =~= seq![a, b]);
}

proof fn lemma_word_ffff()
    ensures
        group(seq!['f', 'f', 'f', 'f']) == Some(0xffffnat),
        !seq!['f', 'f', 'f', 'f'].contains(':'),
        is_plain(seq!['f', 'f', 'f', 'f']),
{
    let word = seq!['f', 'f', 'f', 'f'];
    reveal_with_fuel(text::digits_value, 5);
    assert(word.drop_last() =~= seq!['f', 'f', 'f']);
    assert(word.drop_last().drop_last() =~= seq!['f', 'f']);
    assert(word.drop_last().drop_last().drop_last() =~= seq!['f']);
    assert(word.drop_last().drop_last().drop_last().drop_last() =~= Seq::<char>::empty());
}

/// The groups of `ffff:a.b.c.d`.
proof fn lemma_mapped_tail(a: u16, b: u16)
    ensures
        ({
            let tail = seq!['f', 'f', 'f', 'f'].push(':') + ipv4_text(group_octets(a, b));
            &&& group_list(tail, true) == Some(seq![0xffffu16, a, b])
            &&& is_plain(tail)
        }),
{
    let word = seq!['f', 'f', 'f', 'f'];
    let o = group_octets(a, b);
    let dotted = ipv4_text(o);
    let tail = word.push(':') + dotted;
    lemma_word_ffff();
    lemma_ipv4_text(o);
    text::lemma_split_whole(word, ':');
    text::lemma_split_whole(dotted, ':');
    text::lemma_split_concat(word, dotted, ':');
    let parts = text::split(tail, ':');
    assert(parts =~= seq![word, dotted]);
    assert(parts.drop_last() =~= seq![word]);
    assert(plain_groups(seq![word]).unwrap() =~= seq![0xffffu16]);
    lemma_octets_of_groups(a, b);
    assert(group_list(tail, true).unwrap() =~= seq![0xffffu16, a, b]);
}

proof fn lemma_ipv6_mapped(g: Seq<u16>)
    requires
        g.len() == 8,
        is_mapped(g),
    ensures
        ipv6(ipv6_text(g)) == Some(g),
        is_plain(ipv6_text(g)),
{
    let s = ipv6_text(g);
    reveal_strlit("::ffff:");
    let tail = seq!['f', 'f', 'f', 'f'].push(':') + ipv4_text(group_octets(g[6], g[7]));
    lemma_mapped_tail(g[6], g[7]);
    assert(s =~= seq![':', ':'] + tail);
    assert(double_at(s, 0));
    lemma_first_double_at(s, 0);
    assert(s.take(0) =~= Seq::<char>::empty());
    assert(s.skip(2) =~= tail);
    assert(group_list(s.take(0), false) == Some(Seq::<u16>::empty()));
    assert(fill_zeros(Seq::<u16>::empty(), seq![0xffffu16, g[6], g[7]]) =~= g);
}

proof fn lemma_fill_zeros(g: Seq<u16>, start: int, len: int)
    requires
        g.len() == 8,
        0 <= start,
        1 < len,
        start + len <= 8,
        forall|j: int| start <= j < start + len ==> g[j] == 0,
    ensures
        fill_zeros(g.take(start), g.skip(start + len)) == g,
{
    assert(fill_zeros(g.take(start), g.skip(start + len)) =~= g);
}

/// Two texts with `::` between them come apart at that place.
proof fn lemma_double_between(head: Seq<char>, tail: Seq<char>)
    requires
        single_colons(head, head.len() - 1),
        head.len() > 0 ==> head.last() != ':',
        is_plain(head),
        is_plain(tail),
    ensures
        ({
            let s = head + seq![':', ':'] + tail;
            &&& first_double(s) == Some(head.len() as int)
            &&& s.take(head.len() as int) == head
            &&& s.skip(head.len() as int + 2) == tail
            &&& is_plain(s)
        }),
{
    let s = head + seq![':', ':'] + tail;
    let n = head.len() as int;
    assert forall|i: int| 0 <= i < n implies !(#[trigger] double_at(s, i)) by {
        if i < n - 1 {
            assert(s[i] == head[i] && s[i + 1] == head[i + 1]);
            assert(!double_at(head, i));
        } else {
            assert(s[i] == head.last());
        }
    }
    assert(double_at(s, n));
    lemma_first_double_at(s, n);
    assert(s.take(n) =~= head);
    assert(s.skip(n + 2) =~= tail);
}

proof fn lemma_ipv6_compressed(g: Seq<u16>, start: int, len: int)
    requires
        g.len() == 8,
        0 <= start,
        1 < len,
        start + len <= 8,
        forall|j: int| start <= j < start + len ==> g[j] == 0,
    ensures
        ({
            let s = groups_text(g.take(start)) + seq![':', ':'] + groups_text(g.skip(start + len));
            &&& ipv6(s) == Some(g)
            &&& is_plain(s)
        }),
{
    let head = groups_text(g.take(start));
    let tail = groups_text(g.skip(start + len));
    lemma_groups_text(g.take(start), false);
    lemma_groups_text(g.skip(start + len), true);
    lemma_double_between(head, tail);
    lemma_fill_zeros(g, start, len);
}

proof fn lemma_ipv6_text(g: Seq<u16>)
    requires
        g.len() == 8,
    ensures
        ipv6(ipv6_text(g)) == Some(g),
        is_plain(ipv6_text(g)),
{
    let start = longest_zeros(g, 8);
    let len = zero_run(g, start);
    if is_mapped(g) {
        lemma_ipv6_mapped(g);
    } else if len > 1 {
        lemma_longest_range(g, 8);
        lemma_zero_run_range(g, start);
        lemma_ipv6_compressed(g, start, len);
        reveal_strlit("::");
        assert("::"@ =~= seq![':', ':']);
    } else {
        lemma_groups_text(g, true);
        lemma_first_double_none(ipv6_text(g));
    }
}

/// What stands between the brackets reads back.
proof fn lemma_scoped_text(segments: Seq<u16>, scope_id: u32)
    requires
        segments.len() == 8,
    ensures
        ({
            let ip = ipv6_text(segments);
            let inner = if scope_id == 0 {
                ip
            } else {
                ip.push('%') + text::decimal(scope_id as nat)
            };
            &&& scoped(inner) == Some((segments, scope_id))
            &&& !inner.contains(']')
        }),
{
    let ip = ipv6_text(segments);
    let number = text::decimal(scope_id as nat);
    lemma_ipv6_text(segments);
    assert(!ip.contains(']') && !ip.contains('%'));
    text::lemma_split_whole(ip, '%');
    if scope_id != 0 {
        text::lemma_number_text(scope_id as nat, 10);
        lemma_digits_lack(number, 10, ']');
        lemma_digits_lack(number, 10, '%');
        text::lemma_split_whole(number, '%');
        text::lemma_split_concat(ip, number, '%');
        let inner = ip.push('%') + number;
        assert(text::split(inner, '%') =~= seq![ip, number]);
        assert forall|i: int| 0 <= i < inner.len() implies inner[i] != ']' by {
            if i < ip.len() {
                assert(ip.contains(ip[i]));
            } else if i > ip.len() {
                assert(number.contains(number[i - ip.len() - 1]));
            }
        }
    }
}

/// The text with an address in brackets before a port comes apart at the brackets.
proof fn lemma_bracketed(inner: Seq<char>, digits: Seq<char>)
    requires
        !inner.contains(']'),
        !digits.contains(']'),
    ensures
        ({
            let s = (seq!['['] + inner).push(']') + (seq![':'] + digits);
            &&& s.len() > 0
            &&& s[0] == '['
            &&& text::split(s.skip(1), ']') == seq![inner, seq![':'] + digits]
            &&& (seq![':'] + digits).skip(1) == digits
        }),
{
    let after = seq![':'] + digits;
    let s = (seq!['['] + inner).push(']') + after;
    assert(s.skip(1) =~= inner.push(']') + after);
    assert forall|i: int| 0 <= i < after.len() implies after[i] != ']' by {
        if i > 0 {
            assert(digits.contains(digits[i - 1]));
        }
    }
    text::lemma_split_whole(inner, ']');
    text::lemma_split_whole(after, ']');
    text::lemma_split_concat(inner, after, ']');
    assert(seq![inner] + seq![after] =~= seq![inner, after]);
    assert(after.skip(1) =~= digits);
}

/// An address in brackets before a port is read as what stands between the brackets says.
proof fn lemma_socket_v6(
    inner: Seq<char>,
    digits: Seq<char>,
    segments: Seq<u16>,
    port: u16,
    scope_id: u32,
)
    requires
        !inner.contains(']'),
        !digits.contains(']'),
        scoped(inner) == Some((segments, scope_id)),
        port_number(digits) == Some(port),
    ensures
        socket_addr((seq!['['] + inner).push(']') + (seq![':'] + digits)) == Some(
            AddrView::V6 { segments, port, scope_id },
        ),
{
    let s = (seq!['['] + inner).push(']') + (seq![':'] + digits);
    lemma_bracketed(inner, digits);
    lemma_bracket_is_not_v4(s);
}

proof fn lemma_v6_round_trip(segments: Seq<u16>, port: u16, scope_id: u32)
    requires
        segments.len() == 8,
    ensures
        ({
            let a = AddrView::V6 { segments, port, scope_id };
            socket_addr(addr_text(a)) == Some(a)
        }),
{
    let s = addr_text(AddrView::V6 { segments, port, scope_id });
    let ip = ipv6_text(segments);
    let digits = text::decimal(port as nat);
    let inner = if scope_id == 0 {
        ip
    } else {
        ip.push('%') + text::decimal(scope_id as nat)
    };
    assert(s =~= (seq!['['] + inner).push(']') + (seq![':'] + digits));
    lemma_scoped_text(segments, scope_id);
    lemma_port_text(port);
    lemma_socket_v6(inner, digits, segments, port, scope_id);
}

/// An address that is written out reads back as the same address.
pub proof fn law_addr_round_trip(a: AddrView)
    requires
        a.wf(),
    ensures
        socket_addr(addr_text(a)) == Some(a),
{
    match a {
        AddrView::V4 { octets, port } => {
            let s = addr_text(a);
            lemma_ipv4_text(octets);
            lemma_port_text(port);
            text::lemma_split_whole(ipv4_text(octets), ':');
            text::lemma_split_whole(text::decimal(port as nat), ':');
            text::lemma_split_concat(ipv4_text(octets), text::decimal(port as nat), ':');
            assert(text::split(s, ':') =~= seq![ipv4_text(octets), text::decimal(port as nat)]);
        },
        AddrView::V6 { segments, port, scope_id } => {
            lemma_v6_round_trip(segments, port, scope_id);
        },
    }
}

/// A text that starts with a bracket writes no IPv4 address.
proof fn lemma_bracket_is_not_v4(s: Seq<char>)
    requires
        s.len() > 0,
        s[0] == '[',
    ensures
        socket_v4(s) is None,
{
    let parts = text::split(s, ':');
    text::lemma_split_nonempty(s, ':');
    lemma_split_first(s, ':');
    if parts.len() == 2 && ipv4(parts[0]) is Some {
        let o = text::split(parts[0], '.');
        lemma_split_first(parts[0], '.');
        assert(octet(o[0]) is Some);
        assert(text::digit(o[0][0], 10) is Some);
    }
}

/// The first piece starts as the whole does, unless the whole starts with the separator.
proof fn lemma_split_first(s: Seq<char>, sep: char)
    requires
        s.len() > 0,
        s[0] != sep,
    ensures
        text::split(s, sep)[0].len() > 0,
        text::split(s, sep)[0][0] == s[0],
    decreases s.len(),
{
    text::lemma_split_nonempty(s.drop_last(), sep);
    if s.len() > 1 {
        lemma_split_first(s.drop_last(), sep);
    } else {
        assert(s.drop_last() =~= Seq::<char>::empty());
        assert(text::split(s.drop_last(), sep) == seq![Seq::<char>::empty()]);
    }
}

/// The text of an address holds neither a comma nor a bar.
pub proof fn lemma_addr_text_chars(a: AddrView)
    requires
        a.wf(),
    ensures
        !addr_text(a).contains(','),
        !addr_text(a).contains('|'),
{
    let s = addr_text(a);
    match a {
        AddrView::V4 { octets, port } => {
            lemma_ipv4_text(octets);
            lemma_plain_number(port as nat, 10);
            assert(is_plain(s));
        },
        AddrView::V6 { segments, port, scope_id } => {
            lemma_ipv6_text(segments);
            lemma_plain_number(port as nat, 10);
            lemma_plain_number(scope_id as nat, 10);
            assert(forall|i: int|
                0 <= i < s.len() ==> text::digit(#[trigger] s[i], 16) is Some || s[i] == ':'
                    || s[i] == '.' || s[i] == '[' || s[i] == ']' || s[i] == '%');
        },
    }
}

// ---------------------------------------------------------------------------------------
// What holds of addresses
// ---------------------------------------------------------------------------------------

/// The text of an address is that of the address without its port, then the port; an IPv6 address
/// stands in brackets, with its scope where it has one.
pub proof fn law_addr_text(a: AddrView)
    ensures
        a matches AddrView::V4 { octets, port } ==> addr_text(a) == ip_text(a) + ":"@
            + text::decimal(port as nat),
        a matches AddrView::V6 { segments, port, scope_id } ==> scope_id == 0 ==> addr_text(a)
            == "["@ + ip_text(a) + "]:"@ + text::decimal(port as nat),
        a matches AddrView::V6 { segments, port, scope_id } ==> scope_id != 0 ==> addr_text(a)
            == "["@ + ip_text(a) + "%"@ + text::decimal(scope_id as nat) + "]:"@ + text::decimal(
            port as nat,
        ),
{
    reveal_strlit(":");
    reveal_strlit("[");
    reveal_strlit("]:");
    reveal_strlit("%");
    match a {
        AddrView::V4 { octets, port } => {
            assert(addr_text(a) =~= ip_text(a) + ":"@ + text::decimal(port as nat));
        },
        AddrView::V6 { segments, port, scope_id } => {
            if scope_id == 0 {
                assert(addr_text(a) =~= "["@ + ip_text(a) + "]:"@ + text::decimal(port as nat));
            } else {
                assert(addr_text(a) =~= "["@ + ip_text(a) + "%"@ + text::decimal(scope_id as nat)
                    + "]:"@ + text::decimal(port as nat));
            }
        },
    }
}

/// The text of an IPv4 address is its four octets in decimal with dots between them.
pub proof fn law_ipv4_text(a: u8, b: u8, c: u8, d: u8)
    ensures
        ipv4_text(seq![a, b, c, d]) == text::decimal(a as nat) + "."@ + text::decimal(b as nat)
            + "."@ + text::decimal(c as nat) + "."@ + text::decimal(d as nat),
{
    reveal_strlit(".");
    let o = seq![a, b, c, d];
    let parts = o.map_values(|b: u8| text::decimal(b as nat));
    let w = text::decimal(a as nat);
    let x = text::decimal(b as nat);
    let y = text::decimal(c as nat);
    let z = text::decimal(d as nat);
    assert(parts =~= seq![w, x, y, z]);
    assert(parts.drop_last() =~= seq![w, x, y]);
    assert(seq![w, x, y].drop_last() =~= seq![w, x]);
    assert(seq![w, x].drop_last() =~= seq![w]);
    assert(text::join(seq![w], '.') == w);
    assert(text::join(seq![w, x], '.') =~= w + "."@ + x);
    assert(text::join(seq![w, x, y], '.') =~= w + "."@ + x + "."@ + y);
    assert(text::join(parts, '.') =~= w + "."@ + x + "."@ + y + "."@ + z);
}

proof fn lemma_octet_is_unique(s: Seq<char>)
    requires
        octet(s) is Some,
    ensures
        octet(s).unwrap() <= 255,
        text::decimal(octet(s).unwrap()) == s,
{
    text::lemma_decimal_is_unique(s);
}

/// An IPv4 address is read from its own text and from no other: there are no zeros in front of an
/// octet, and none is larger than a byte.
pub proof fn law_ipv4_is_read_from_its_text(s: Seq<char>)
    requires
        ipv4(s) is Some,
    ensures
        ipv4(s).unwrap().len() == 4,
        ipv4_text(ipv4(s).unwrap()) == s,
{
    let parts = text::split(s, '.');
    let o = ipv4(s).unwrap();
    let back = o.map_values(|b: u8| text::decimal(b as nat));
    assert forall|i: int| 0 <= i < 4 implies back[i] == parts[i] by {
        assert(octet(parts[i]) is Some);
        lemma_octet_is_unique(parts[i]);
    }
    assert(back =~= parts);
    text::lemma_join_split(s, '.');
}

/// An IPv6 address is read with all of its groups written out, and with any run of two or more zeros
/// left out.
pub proof fn law_ipv6_is_read_however_written(g: Seq<u16>, start: int, len: int)
    requires
        g.len() == 8,
    ensures
        ipv6(groups_text(g)) == Some(g),
        0 <= start && 1 < len && start + len <= 8 && (forall|j: int|
            start <= j < start + len ==> g[j] == 0) ==> ipv6(
            groups_text(g.take(start)) + "::"@ + groups_text(g.skip(start + len)),
        ) == Some(g),
{
    lemma_groups_text(g, true);
    lemma_first_double_none(groups_text(g));
    reveal_strlit("::");
    assert("::"@ =~= seq![':', ':']);
    if 0 <= start && 1 < len && start + len <= 8 && (forall|j: int|
        start <= j < start + len ==> g[j] == 0) {
        lemma_ipv6_compressed(g, start, len);
    }
}

/// A run of zeros is counted as far as it goes.
proof fn lemma_zero_run_covers(g: Seq<u16>, start: int, len: int)
    requires
        0 <= start,
        0 <= len,
        start + len <= g.len(),
        forall|j: int| start <= j < start + len ==> g[j] == 0,
    ensures
        zero_run(g, start) >= len,
    decreases len,
{
    if len > 0 {
        assert(g[start] == 0);
        lemma_zero_run_covers(g, start + 1, len - 1);
    } else {
        lemma_zero_run_range(g, start);
    }
}

/// No run is longer than the longest, and none before it is as long.
proof fn lemma_longest_is_first(g: Seq<u16>, n: int, i: int)
    requires
        0 <= i < n <= g.len(),
    ensures
        zero_run(g, i) <= zero_run(g, longest_zeros(g, n)),
        i < longest_zeros(g, n) ==> zero_run(g, i) < zero_run(g, longest_zeros(g, n)),
        0 <= longest_zeros(g, n) < n,
    decreases n,
{
    if n == 1 {
        assert(longest_zeros(g, 0) == 0);
    } else if i < n - 1 {
        lemma_longest_is_first(g, n - 1, i);
    } else {
        lemma_longest_is_first(g, n - 1, 0);
    }
}

/// In the text of an IPv6 address that is no mapped one, the first of the longest runs of two or
/// more zeros is left out, and nothing is where no two zeros stand side by side.
pub proof fn law_ipv6_text(g: Seq<u16>, start: int, len: int)
    requires
        g.len() == 8,
        !(g[0] == 0 && g[1] == 0 && g[2] == 0 && g[3] == 0 && g[4] == 0 && g[5] == 0xffff),
    ensures
        (forall|i: int| 0 <= i < 7 ==> !(#[trigger] g[i] == 0 && g[i + 1] == 0)) ==> ipv6_text(g)
            == groups_text(g),
        0 <= start && 1 < len && start + len <= 8 && (forall|j: int|
            start <= j < start + len ==> g[j] == 0) && (forall|s: int, n: int|
            0 <= s && 0 < n && s + n <= 8 && #[trigger] zeros_at(g, s, n) ==> n < len || (n == len
                && s >= start)) ==> ipv6_text(g) == groups_text(g.take(start)) + "::"@
            + groups_text(g.skip(start + len)),
{
    let at = longest_zeros(g, 8);
    lemma_longest_is_first(g, 8, 0);
    lemma_zero_run_range(g, at);
    let n = zero_run(g, at);
    if forall|i: int| 0 <= i < 7 ==> !(#[trigger] g[i] == 0 && g[i + 1] == 0) {
        if n > 1 {
            assert(g[at] == 0 && g[at + 1] == 0);
        }
    }
    if 0 <= start && 1 < len && start + len <= 8 && (forall|j: int|
        start <= j < start + len ==> g[j] == 0) && (forall|s: int, n: int|
        0 <= s && 0 < n && s + n <= 8 && #[trigger] zeros_at(g, s, n) ==> n < len || (n == len && s
            >= start)) {
        lemma_zero_run_covers(g, start, len);
        lemma_longest_is_first(g, 8, start);
        assert(zeros_at(g, at, n));
        assert(n == len);
        assert(at >= start);
        lemma_zero_run_range(g, start);
        assert(at == start);
    }
}

/// Whether so many zeros stand in a row from a position on.
pub open spec fn zeros_at(g: Seq<u16>, start: int, len: int) -> bool {
    forall|j: int| start <= j < start + len ==> g[j] == 0
}

/// A mapped IPv4 address is written with dots.
pub proof fn law_mapped_text(g: Seq<u16>)
    requires
        g.len() == 8,
        g[0] == 0 && g[1] == 0 && g[2] == 0 && g[3] == 0 && g[4] == 0 && g[5] == 0xffff,
    ensures
        ipv6_text(g) == "::ffff:"@ + ipv4_text(
            seq![
                (g[6] / 256) as u8,
                (g[6] % 256) as u8,
                (g[7] / 256) as u8,
                (g[7] % 256) as u8,
            ],
        ),
{
}

/// An address is seen with all that it holds.
pub proof fn law_addr_view(a: SocketAddr)
    ensures
        a matches SocketAddr::V4 { octets, port } ==> a@ == (AddrView::V4 {
            octets: octets@,
            port,
        }),
        a matches SocketAddr::V6 { segments, port, scope_id } ==> a@ == (AddrView::V6 {
            segments: segments@,
            port,
            scope_id,
        }),
        a@.wf(),
{
}

}
