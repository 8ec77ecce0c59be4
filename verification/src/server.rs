use vstd::prelude::*;
use vstd::string::StrSliceExecFns;
use vstd::string::StringExecFns;

verus! {

/// State necessary to identify or connect to a server. Identity is the
/// `(host, port)` pair alone: the TLS server name is metadata that does not
/// participate in equality or ordering.
#[derive(Debug)]
pub struct Server {
    /// The hostname or IP address for the server.
    pub host: String,
    /// The port for the server.
    pub port: u16,
    /// The server name used during the TLS handshake.
    pub tls_server_name: Option<String>,
}

impl Server {
    /// The identity of the endpoint: host characters and port.
    pub open spec fn id(&self) -> (Seq<char>, u16) {
        (self.host@, self.port)
    }

    /// Create a new `Server` from parts with a TLS server name.
    pub fn new_with_tls(host: &str, port: u16, tls_server_name: Option<String>) -> (r: Server)
        ensures
            r.host@ == host@,
            r.port == port,
            r.tls_server_name == tls_server_name,
    {
        Server { host: host.to_owned(), port, tls_server_name }
    }

    /// Create a new `Server` from parts.
    pub fn new(host: &str, port: u16) -> (r: Server)
        ensures
            r.host@ == host@,
            r.port == port,
            r.tls_server_name is None,
    {
        Server { host: host.to_owned(), port, tls_server_name: None }
    }
}

impl Clone for Server {
    fn clone(&self) -> (r: Server)
        ensures
            r == *self,
    {
        Server {
            host: self.host.clone(),
            port: self.port,
            tls_server_name: match &self.tls_server_name {
                Some(s) => Some(s.clone()),
                None => None,
            },
        }
    }
}

impl PartialEq for Server {
    /// Two references to the same endpoint compare equal even if only one
    /// of them carries a TLS name override.
    fn eq(&self, other: &Server) -> (r: bool) {
        self.host == other.host && self.port == other.port
    }
}

impl vstd::std_specs::cmp::PartialEqSpecImpl for Server {
    open spec fn obeys_eq_spec() -> bool {
        true
    }

    open spec fn eq_spec(&self, other: &Server) -> bool {
        self.id() == other.id()
    }
}

impl Eq for Server {}

/// Lexicographic order on character sequences by scalar value; byte-wise
/// order of the UTF-8 encodings agrees with this order.
pub open spec fn chars_lt(a: Seq<char>, b: Seq<char>) -> bool
    decreases a.len(),
{
    if b.len() == 0 {
        false
    } else if a.len() == 0 {
        true
    } else if a[0] != b[0] {
        (a[0] as int) < (b[0] as int)
    } else {
        chars_lt(a.drop_first(), b.drop_first())
    }
}

/// The order servers are ranked by: primarily by host, then by port.
pub open spec fn server_lt(a: Server, b: Server) -> bool {
    chars_lt(a.host@, b.host@) || (a.host@ == b.host@ && a.port < b.port)
}

/// `chars_lt` is trichotomous: of two sequences, exactly one of "less",
/// "equal" and "greater" holds.
pub proof fn lemma_chars_lt_total(a: Seq<char>, b: Seq<char>)
    ensures
        chars_lt(a, b) || chars_lt(b, a) || a == b,
        chars_lt(a, b) ==> !chars_lt(b, a) && a != b,
        chars_lt(b, a) ==> !chars_lt(a, b) && a != b,
    decreases a.len(),
{
    if a.len() == 0 && b.len() == 0 {
        assert(a =~= b);
    } else if a.len() > 0 && b.len() > 0 {
        if a[0] == b[0] {
            lemma_chars_lt_total(a.drop_first(), b.drop_first());
            if a.drop_first() == b.drop_first() {
                assert forall|i: int| 0 <= i < a.len() implies a[i] == b[i] by {
                    if i > 0 {
                        assert(a.drop_first()[i - 1] == a[i]);
                        assert(b.drop_first()[i - 1] == b[i]);
                    }
                }
                assert(a =~= b);
            }
            if a == b {
                assert(a.drop_first() =~= b.drop_first());
            }
        } else {
            assert(a != b);
        }
    }
}

/// `chars_lt` is transitive.
pub proof fn lemma_chars_lt_trans(a: Seq<char>, b: Seq<char>, c: Seq<char>)
    requires
        chars_lt(a, b),
        chars_lt(b, c),
    ensures
        chars_lt(a, c),
    decreases a.len(),
{
    if a.len() > 0 && b.len() > 0 && c.len() > 0 {
        if a[0] == b[0] && b[0] == c[0] {
            lemma_chars_lt_trans(a.drop_first(), b.drop_first(), c.drop_first());
        }
    }
}

/// `server_lt` is a strict total order on identities: trichotomy.
pub proof fn lemma_server_lt_total(a: Server, b: Server)
    ensures
        server_lt(a, b) || server_lt(b, a) || a.id() == b.id(),
        server_lt(a, b) ==> !server_lt(b, a) && a.id() != b.id(),
        server_lt(b, a) ==> !server_lt(a, b) && a.id() != b.id(),
{
    lemma_chars_lt_total(a.host@, b.host@);
}

/// `server_lt` is transitive.
pub proof fn lemma_server_lt_trans(a: Server, b: Server, c: Server)
    requires
        server_lt(a, b),
        server_lt(b, c),
    ensures
        server_lt(a, c),
{
    if chars_lt(a.host@, b.host@) && chars_lt(b.host@, c.host@) {
        lemma_chars_lt_trans(a.host@, b.host@, c.host@);
    }
}

/// Compare two string slices in the lexicographic order of their characters.
pub fn str_lt(a: &str, b: &str) -> (r: bool)
    ensures
        r == chars_lt(a@, b@),
{
    let alen = a.unicode_len();
    let blen = b.unicode_len();
    let mut i: usize = 0;
    proof {
        assert(a@.skip(0) =~= a@);
        assert(b@.skip(0) =~= b@);
    }
    while i < alen && i < blen
        invariant
            alen == a@.len(),
            blen == b@.len(),
            0 <= i <= alen,
            0 <= i <= blen,
            chars_lt(a@, b@) == chars_lt(a@.skip(i as int), b@.skip(i as int)),
        decreases alen - i,
    {
        let ca = a.get_char(i);
        let cb = b.get_char(i);
        proof {
            assert(a@.skip(i as int)[0] == a@[i as int]);
            assert(b@.skip(i as int)[0] == b@[i as int]);
            assert(a@.skip(i as int).drop_first() =~= a@.skip(i as int + 1));
            assert(b@.skip(i as int).drop_first() =~= b@.skip(i as int + 1));
        }
        if ca != cb {
            return (ca as u32) < (cb as u32);
        }
        i = i + 1;
    }
    proof {
        if i < alen {
            assert(a@.skip(i as int).len() > 0);
        }
    }
    alen < blen
}

/// Compare two servers in the order used for deduplicated listings:
/// by host, then by port.
pub fn server_cmp_lt(a: &Server, b: &Server) -> (r: bool)
    ensures
        r == server_lt(*a, *b),
{
    if str_lt(a.host.as_str(), b.host.as_str()) {
        true
    } else if crate::value::str_eq(a.host.as_str(), b.host.as_str()) {
        a.port < b.port
    } else {
        false
    }
}

/// How a literal-IP host is mapped to a logical server name for the TLS
/// handshake.
#[derive(Clone, Copy, Debug, PartialEq, Eq, Structural)]
pub enum TlsHostMapping {
    /// Present the IP address itself: derive no name.
    NoPolicy,
    /// Present the hostname of the node that returned the topology response.
    DefaultHost,
}

impl TlsHostMapping {
    /// The logical name the policy asks to present, if any.
    pub open spec fn spec_map(&self, default_host: Seq<char>) -> Option<Seq<char>> {
        match *self {
            TlsHostMapping::NoPolicy => None,
            TlsHostMapping::DefaultHost => Some(default_host),
        }
    }

    /// Ask the policy for the logical server name to present.
    pub fn map_name(&self, default_host: &str) -> (r: Option<String>)
        ensures
            match r {
                Some(s) => self.spec_map(default_host@) == Some(s@),
                None => self.spec_map(default_host@) is None,
            },
    {
        match *self {
            TlsHostMapping::NoPolicy => None,
            TlsHostMapping::DefaultHost => Some(default_host.to_owned()),
        }
    }
}

impl Server {
    /// Derive and store the TLS handshake name once during connection
    /// setup. A no-op when no policy is configured or when the host is not
    /// an IP literal (for instance, already a DNS name). Whether the host
    /// is an IP literal is decided by the caller's address parser.
    pub fn set_tls_server_name(
        &mut self,
        policy: &TlsHostMapping,
        host_is_ip_literal: bool,
        default_host: &str,
    )
        ensures
            final(self).host == old(self).host,
            final(self).port == old(self).port,
            (*policy == TlsHostMapping::NoPolicy || !host_is_ip_literal) ==> *final(self)
                == *old(self),
            (*policy != TlsHostMapping::NoPolicy && host_is_ip_literal) ==> (match policy.spec_map(
                default_host@,
            ) {
                Some(name) => final(self).tls_server_name matches Some(n) && n@ == name,
                None => *final(self) == *old(self),
            }),
    {
        if *policy == TlsHostMapping::NoPolicy {
            return ;
        }
        if !host_is_ip_literal {
            return ;
        }
        match policy.map_name(default_host) {
            Some(name) => {
                self.tls_server_name = Some(name);
            },
            None => {},
        }
    }
}

} // verus!

use crate::scan::chars_of;
use crate::errors::{RedisError, RedisErrorKind};

verus! {

// ---------------------------------------------------------------------------
// Parsing and rendering `host:port` strings.
//
// A server address is rendered as the host, a colon and the port in
// decimal. Parsing trims surrounding whitespace, demands exactly one colon
// and a port that reads as an unsigned 16-bit decimal (with an optional
// leading plus sign, as the system integer parser accepts).
// ---------------------------------------------------------------------------

/// The whitespace trimmed from the ends of an address string: the
/// characters with the Unicode White_Space property, as the standard
/// library's trim removes.
pub open spec fn is_space(c: char) -> bool {
    ||| c as int == 0x20
    ||| 0x09 <= c as int <= 0x0D
    ||| c as int == 0x85
    ||| c as int == 0xA0
    ||| c as int == 0x1680
    ||| 0x2000 <= c as int <= 0x200A
    ||| c as int == 0x2028
    ||| c as int == 0x2029
    ||| c as int == 0x202F
    ||| c as int == 0x205F
    ||| c as int == 0x3000
}

/// `s` without leading whitespace.
pub open spec fn trim_start(s: Seq<char>) -> Seq<char>
    decreases s.len(),
{
    if s.len() > 0 && is_space(s[0]) {
        trim_start(s.drop_first())
    } else {
        s
    }
}

/// `s` without trailing whitespace.
pub open spec fn trim_end(s: Seq<char>) -> Seq<char>
    decreases s.len(),
{
    if s.len() > 0 && is_space(s.last()) {
        trim_end(s.drop_last())
    } else {
        s
    }
}

/// `s` without leading and trailing whitespace.
pub open spec fn spec_trim(s: Seq<char>) -> Seq<char> {
    trim_end(trim_start(s))
}

pub open spec fn is_dec_digit(c: char) -> bool {
    48 <= c as int && c as int <= 57
}

pub open spec fn digit_val(c: char) -> int {
    c as int - 48
}

pub open spec fn all_dec_digits(s: Seq<char>) -> bool {
    forall|i: int| 0 <= i < s.len() ==> is_dec_digit(#[trigger] s[i])
}

/// The number a digit string denotes.
pub open spec fn dec_val(s: Seq<char>) -> int
    decreases s.len(),
{
    if s.len() == 0 {
        0
    } else {
        dec_val(s.drop_last()) * 10 + digit_val(s.last())
    }
}

/// The digit character of a value below ten.
pub open spec fn digit_char(d: int) -> char {
    ((d + 48) as u8) as char
}

/// The decimal rendering of a non-negative number, without sign or
/// leading zeros.
pub open spec fn dec_repr(n: int) -> Seq<char>
    decreases n,
{
    if n <= 9 {
        seq![digit_char(n)]
    } else {
        dec_repr(n / 10).push(digit_char(n % 10))
    }
}

/// How a port text reads as an unsigned 16-bit number: an optional plus
/// sign, then at least one digit, denoting at most 65535.
pub open spec fn parse_u16_chars(s: Seq<char>) -> Option<u16> {
    let body = if s.len() > 0 && s[0] == '+' {
        s.drop_first()
    } else {
        s
    };
    if body.len() > 0 && all_dec_digits(body) && dec_val(body) <= 65535 {
        Some(dec_val(body) as u16)
    } else {
        None
    }
}

/// The one colon of the trimmed address, separating host from port.
pub open spec fn colon_at(t: Seq<char>, i: int) -> bool {
    &&& 0 <= i < t.len()
    &&& t[i] == ':'
    &&& forall|j: int| 0 <= j < t.len() && j != i ==> t[j] != ':'
}

/// What an address string parses to: the host before the single colon of
/// the trimmed text, and the port after it.
pub open spec fn parse_server_chars(s: Seq<char>) -> Option<(Seq<char>, u16)> {
    let t = spec_trim(s);
    if exists|i: int| colon_at(t, i) {
        let i = choose|i: int| colon_at(t, i);
        match parse_u16_chars(t.skip(i + 1)) {
            Some(p) => Some((t.take(i), p)),
            None => None,
        }
    } else {
        None
    }
}

/// The canonical rendering of a server address.
pub open spec fn format_server_chars(host: Seq<char>, port: u16) -> Seq<char> {
    host + seq![':'] + dec_repr(port as int)
}

/// A digit string denotes a non-negative number.
pub proof fn lemma_dec_val_nonneg(s: Seq<char>)
    requires
        all_dec_digits(s),
    ensures
        dec_val(s) >= 0,
    decreases s.len(),
{
    if s.len() > 0 {
        assert(all_dec_digits(s.drop_last())) by {
            assert(forall|i: int|
                0 <= i < s.drop_last().len() ==> s.drop_last()[i] == #[trigger] s[i]);
        }
        lemma_dec_val_nonneg(s.drop_last());
    }
}

/// A digit string denotes at least what any of its prefixes denotes.
pub proof fn lemma_dec_val_prefix(s: Seq<char>, k: int)
    requires
        all_dec_digits(s),
        0 <= k <= s.len(),
    ensures
        dec_val(s) >= dec_val(s.take(k)),
    decreases s.len(),
{
    if k == s.len() {
        assert(s.take(k) =~= s);
    } else {
        assert(all_dec_digits(s.drop_last())) by {
            assert(forall|i: int|
                0 <= i < s.drop_last().len() ==> s.drop_last()[i] == #[trigger] s[i]);
        }
        lemma_dec_val_nonneg(s.drop_last());
        lemma_dec_val_prefix(s.drop_last(), k);
        assert(s.drop_last().take(k) =~= s.take(k));
        assert(dec_val(s) == dec_val(s.drop_last()) * 10 + digit_val(s.last()));
        assert(digit_val(s.last()) >= 0);
    }
}

/// A decimal rendering consists of digits and denotes its number back.
pub proof fn lemma_dec_repr_val(n: int)
    requires
        0 <= n,
    ensures
        all_dec_digits(dec_repr(n)),
        dec_repr(n).len() >= 1,
        dec_val(dec_repr(n)) == n,
    decreases n,
{
    if n <= 9 {
        assert(dec_repr(n) =~= seq![digit_char(n)]);
        assert(digit_char(n) as int == n + 48);
        assert(is_dec_digit(digit_char(n)));
        assert(dec_repr(n).drop_last() =~= Seq::<char>::empty());
        assert(dec_val(Seq::<char>::empty()) == 0);
        assert(dec_repr(n).last() == digit_char(n));
        assert(digit_val(digit_char(n)) == n);
        assert(dec_val(dec_repr(n)) == dec_val(dec_repr(n).drop_last()) * 10 + digit_val(
            dec_repr(n).last(),
        ));
    } else {
        lemma_dec_repr_val(n / 10);
        let whole = dec_repr(n / 10).push(digit_char(n % 10));
        assert(whole.drop_last() =~= dec_repr(n / 10));
        assert(whole.last() == digit_char(n % 10));
        assert(digit_val(digit_char(n % 10)) == n % 10);
        assert(dec_val(whole) == (n / 10) * 10 + n % 10);
        assert forall|i: int| 0 <= i < whole.len() implies is_dec_digit(#[trigger] whole[i]) by {
            if i < whole.len() - 1 {
                assert(whole[i] == dec_repr(n / 10)[i]);
            }
        }
    }
}

/// Trimming the front stops at the first non-space character.
proof fn lemma_trim_start_skip(s: Seq<char>, a: int)
    requires
        0 <= a <= s.len(),
        forall|j: int| 0 <= j < a ==> is_space(#[trigger] s[j]),
        a < s.len() ==> !is_space(s[a]),
    ensures
        trim_start(s) == s.skip(a),
    decreases a,
{
    if a == 0 {
        assert(s.skip(0) =~= s);
    } else {
        assert(is_space(s[0]));
        assert(trim_start(s) == trim_start(s.drop_first()));
        lemma_trim_start_skip(s.drop_first(), a - 1);
        assert(s.drop_first().skip(a - 1) =~= s.skip(a));
    }
}

/// Trimming the back stops at the last non-space character.
proof fn lemma_trim_end_take(s: Seq<char>, b: int)
    requires
        0 <= b <= s.len(),
        forall|j: int| b <= j < s.len() ==> is_space(#[trigger] s[j]),
        b > 0 ==> !is_space(s[b - 1]),
    ensures
        trim_end(s) == s.take(b),
    decreases s.len() - b,
{
    if b == s.len() {
        if s.len() > 0 {
            assert(!is_space(s.last()));
        }
        assert(s.take(b) =~= s);
    } else {
        assert(is_space(s.last()));
        assert(trim_end(s) == trim_end(s.drop_last()));
        lemma_trim_end_take(s.drop_last(), b);
        assert(s.drop_last().take(b) =~= s.take(b));
    }
}

/// Whether a character is trimmed as whitespace.
fn is_space_exec(c: char) -> (r: bool)
    ensures
        r == is_space(c),
{
    let x = c as u32;
    x == 0x20 || (0x09 <= x && x <= 0x0D) || x == 0x85 || x == 0xA0 || x == 0x1680 || (0x2000
        <= x && x <= 0x200A) || x == 0x2028 || x == 0x2029 || x == 0x202F || x == 0x205F || x
        == 0x3000
}

/// Whether a character is a decimal digit.
fn is_dec_digit_exec(c: char) -> (r: bool)
    ensures
        r == is_dec_digit(c),
{
    let x = c as u32;
    48 <= x && x <= 57
}

/// The value of a decimal digit character.
fn digit_of(c: char) -> (d: u32)
    requires
        is_dec_digit(c),
    ensures
        d as int == digit_val(c),
        d <= 9,
{
    c as u32 - 48
}

/// Read an unsigned 16-bit decimal from a character range.
fn parse_u16_range(v: &Vec<char>, from: usize, to: usize) -> (r: Option<u16>)
    requires
        from <= to <= v@.len(),
    ensures
        r == parse_u16_chars(v@.subrange(from as int, to as int)),
{
    let ghost s = v@.subrange(from as int, to as int);
    let start: usize = if from < to && v[from] == '+' {
        from + 1
    } else {
        from
    };
    let ghost body = v@.subrange(start as int, to as int);
    proof {
        if from < to && v@[from as int] == '+' {
            assert(s[0] == '+');
            assert(s.drop_first() =~= body);
        } else {
            assert(s =~= body);
        }
    }
    if start == to {
        return None;
    }
    let mut acc: u32 = 0;
    let mut k = start;
    while k < to
        invariant
            from <= start <= k <= to <= v@.len(),
            s == v@.subrange(from as int, to as int),
            body == v@.subrange(start as int, to as int),
            body == (if s.len() > 0 && s[0] == '+' {
                s.drop_first()
            } else {
                s
            }),
            body.len() == to - start,
            acc <= 65535,
            forall|j: int| 0 <= j < k - start ==> is_dec_digit(#[trigger] body[j]),
            acc == dec_val(body.take(k - start)),
        decreases to - k,
    {
        let c = v[k];
        proof {
            assert(body[k - start] == v@[k as int]);
        }
        if !is_dec_digit_exec(c) {
            proof {
                assert(!is_dec_digit(body[k - start]));
                assert(!all_dec_digits(body));
            }
            return None;
        }
        let d = digit_of(c);
        proof {
            assert(body.take(k - start + 1).drop_last() =~= body.take(k - start));
            assert(body.take(k - start + 1).last() == body[k - start]);
            assert(dec_val(body.take(k - start + 1)) == dec_val(body.take(k - start)) * 10
                + digit_val(body[k - start]));
        }
        if acc > 6553 || (acc == 6553 && d > 5) {
            proof {
                assert(dec_val(body.take(k - start + 1)) > 65535);
                if all_dec_digits(body) {
                    lemma_dec_val_prefix(body, k - start + 1);
                    assert(dec_val(body) > 65535);
                }
            }
            return None;
        }
        acc = acc * 10 + d;
        k = k + 1;
    }
    proof {
        assert(body.take(to - start) =~= body);
        assert(all_dec_digits(body));
        assert(dec_val(body) == acc);
    }
    Some(acc as u16)
}

impl Server {
    /// Attempt to parse a `host:port` string: surrounding whitespace is
    /// trimmed, the trimmed text must split at exactly one colon, and the
    /// part after the colon must read as an unsigned 16-bit port.
    pub fn parse(s: &str) -> (r: Option<Server>)
        ensures
            match r {
                Some(srv) => parse_server_chars(s@) == Some((srv.host@, srv.port))
                    && srv.tls_server_name is None,
                None => parse_server_chars(s@) is None,
            },
    {
        let v = chars_of(s);
        let n = v.len();
        let mut a: usize = 0;
        while a < n && is_space_exec(v[a])
            invariant
                0 <= a <= n,
                n == v@.len(),
                forall|j: int| 0 <= j < a ==> is_space(#[trigger] v@[j]),
            decreases n - a,
        {
            a = a + 1;
        }
        let mut b: usize = n;
        while b > a && is_space_exec(v[b - 1])
            invariant
                a <= b <= n,
                n == v@.len(),
                forall|j: int| b <= j < n ==> is_space(#[trigger] v@[j]),
            decreases b,
        {
            b = b - 1;
        }
        let ghost t = spec_trim(s@);
        proof {
            lemma_trim_start_skip(v@, a as int);
            lemma_trim_end_take(v@.skip(a as int), b - a);
            assert(v@.skip(a as int).take(b - a) =~= v@.subrange(a as int, b as int));
            assert(t == v@.subrange(a as int, b as int));
        }
        // scan the trimmed text for colons, remembering the first two
        let mut cnt: usize = 0;
        let mut cidx: usize = 0;
        let mut cidx2: usize = 0;
        let mut k = a;
        while k < b
            invariant
                a <= k <= b <= n,
                n == v@.len(),
                t == v@.subrange(a as int, b as int),
                cnt == 0 ==> forall|j: int| a <= j < k ==> #[trigger] v@[j] != ':',
                cnt == 1 ==> a <= cidx < k && v@[cidx as int] == ':' && forall|j: int|
                    a <= j < k && j != cidx ==> #[trigger] v@[j] != ':',
                cnt <= 2,
                cnt >= 2 ==> a <= cidx < cidx2 < k && v@[cidx as int] == ':' && v@[
                    cidx2 as int] == ':',
            decreases b - k,
        {
            if v[k] == ':' {
                if cnt == 0 {
                    cidx = k;
                } else if cnt == 1 {
                    cidx2 = k;
                }
                if cnt < 2 {
                    cnt = cnt + 1;
                }
            }
            k = k + 1;
        }
        if cnt != 1 {
            proof {
                assert forall|i: int| !colon_at(t, i) by {
                    if 0 <= i < t.len() {
                        assert(t[i] == v@[a + i]);
                        if cnt == 0 {
                        } else {
                            assert(cnt >= 2);
                            if i != cidx - a {
                                assert(t[cidx - a] == v@[cidx as int]);
                            } else {
                                assert(t[cidx2 - a] == v@[cidx2 as int]);
                            }
                        }
                    }
                }
            }
            return None;
        }
        proof {
            assert(t[cidx - a] == v@[cidx as int]);
            assert forall|j: int| 0 <= j < t.len() && j != cidx - a implies t[j] != ':' by {
                assert(t[j] == v@[a + j]);
            }
            assert(colon_at(t, cidx - a));
            let i0 = choose|i: int| colon_at(t, i);
            if i0 != cidx - a {
                assert(t[i0] != ':');
                assert(false);
            }
        }
        let port = match parse_u16_range(&v, cidx + 1, b) {
            Some(p) => p,
            None => {
                proof {
                    assert(v@.subrange(cidx as int + 1, b as int) =~= t.skip(cidx - a + 1));
                }
                return None;
            },
        };
        proof {
            assert(v@.subrange(cidx as int + 1, b as int) =~= t.skip(cidx - a + 1));
        }
        let host_str = s.substring_char(a, cidx);
        let host = host_str.to_owned();
        proof {
            assert(host@ =~= t.take(cidx - a));
        }
        Some(Server { host, port, tls_server_name: None })
    }

    /// Build a server from an address string reported by a node, using the
    /// fallback host when the reported host is empty: nodes regularly omit
    /// their own host in self-referential topology entries.
    pub fn from_parts(server: &str, default_host: &str) -> (r: Option<Server>)
        ensures
            match r {
                Some(srv) => parse_server_chars(server@) matches Some(hp)
                    && srv.host@ == (if hp.0.len() == 0 {
                        default_host@
                    } else {
                        hp.0
                    }) && srv.port == hp.1 && srv.tls_server_name is None,
                None => parse_server_chars(server@) is None,
            },
    {
        match Server::parse(server) {
            Some(srv) => {
                if srv.host.as_str().is_empty() {
                    Some(Server {
                        host: default_host.to_owned(),
                        port: srv.port,
                        tls_server_name: None,
                    })
                } else {
                    Some(srv)
                }
            },
            None => None,
        }
    }

    /// Render the address as `host:port`.
    pub fn to_display_string(&self) -> (r: String)
        ensures
            r@ == format_server_chars(self.host@, self.port),
    {
        let mut out = self.host.clone();
        out.append(":");
        proof {
            reveal_strlit(":");
            assert(":"@ =~= seq![':']);
        }
        let digits = u16_to_dec(self.port);
        out.append(digits.as_str());
        proof {
            assert(out@ =~= self.host@ + seq![':'] + dec_repr(self.port as int));
        }
        out
    }
}

impl Server {
    /// Parse a configuration-facing address string, reporting a
    /// configuration error for anything that does not read as `host:port`.
    pub fn from_string(s: &str) -> (r: Result<Server, RedisError>)
        ensures
            match r {
                Ok(srv) => parse_server_chars(s@) == Some((srv.host@, srv.port))
                    && srv.tls_server_name is None,
                Err(e) => parse_server_chars(s@) is None && e.kind == RedisErrorKind::Config,
            },
    {
        match Server::parse(s) {
            Some(srv) => Ok(srv),
            None => Err(RedisError::new(RedisErrorKind::Config, "Invalid `host:port` server.")),
        }
    }
}

/// Pick the address a host resolves to: resolution must yield at least one
/// candidate, and the first one is selected deterministically.
pub fn select_resolved<A>(addrs: Vec<A>) -> (r: Result<A, RedisError>)
    ensures
        r is Ok <==> addrs@.len() > 0,
        r matches Ok(x) ==> x == addrs@[0],
        r matches Err(e) ==> e.kind == RedisErrorKind::IO,
{
    let mut addrs = addrs;
    if addrs.len() == 0 {
        Err(RedisError::new(RedisErrorKind::IO, "Failed to resolve host."))
    } else {
        let first = addrs.remove(0);
        Ok(first)
    }
}

/// The digit character of a value below ten, as a string slice.
fn digit_str(d: u16) -> (r: &'static str)
    requires
        d <= 9,
    ensures
        r@ =~= seq![digit_char(d as int)],
{
    proof {
        reveal_strlit("0");
        reveal_strlit("1");
        reveal_strlit("2");
        reveal_strlit("3");
        reveal_strlit("4");
        reveal_strlit("5");
        reveal_strlit("6");
        reveal_strlit("7");
        reveal_strlit("8");
        reveal_strlit("9");
    }
    match d {
        0 => "0",
        1 => "1",
        2 => "2",
        3 => "3",
        4 => "4",
        5 => "5",
        6 => "6",
        7 => "7",
        8 => "8",
        _ => "9",
    }
}

/// Render a port number in decimal.
pub fn u16_to_dec(n: u16) -> (r: String)
    ensures
        r@ == dec_repr(n as int),
    decreases n,
{
    if n <= 9 {
        digit_str(n).to_owned()
    } else {
        let mut s = u16_to_dec(n / 10);
        s.append(digit_str(n % 10));
        proof {
            assert(s@ =~= dec_repr(n as int / 10).push(digit_char(n as int % 10)));
        }
        s
    }
}

/// Parsing the canonical rendering of a server yields the host and port
/// back: the round trip over formatting is the identity on the identity
/// fields, for any host that holds no colon and does not begin or end with
/// trimmed whitespace.
pub proof fn lemma_parse_format_round_trip(host: Seq<char>, port: u16)
    requires
        forall|i: int| 0 <= i < host.len() ==> #[trigger] host[i] != ':',
        host.len() > 0 ==> !is_space(host[0]) && !is_space(host[host.len() - 1]),
    ensures
        parse_server_chars(format_server_chars(host, port)) == Some((host, port)),
{
    let f = format_server_chars(host, port);
    let d = dec_repr(port as int);
    lemma_dec_repr_val(port as int);
    assert(f.len() == host.len() + 1 + d.len());
    assert forall|i: int| 0 <= i < host.len() implies f[i] == host[i] by {}
    assert(f[host.len() as int] == ':');
    assert forall|i: int| host.len() + 1 <= i < f.len() implies f[i] == d[i - host.len()
        - 1] by {}
    // the rendering is already trimmed
    assert(!is_space(f[0])) by {
        if host.len() == 0 {
            assert(f[0] == ':');
        }
    }
    assert(!is_space(f[f.len() - 1])) by {
        assert(f[f.len() - 1] == d[d.len() - 1]);
        assert(is_dec_digit(d[d.len() - 1]));
    }
    assert(trim_start(f) == f);
    assert(trim_end(f) == f);
    assert(spec_trim(f) == f);
    // the colon after the host is the only one
    assert(colon_at(f, host.len() as int)) by {
        assert forall|j: int|
            0 <= j < f.len() && j != host.len() implies #[trigger] f[j] != ':' by {
            if j < host.len() {
            } else {
                assert(f[j] == d[j - host.len() - 1]);
                assert(is_dec_digit(d[j - host.len() - 1]));
            }
        }
    }
    let i0 = choose|i: int| colon_at(f, i);
    if i0 != host.len() {
        assert(f[i0] != ':');
        assert(false);
    }
    // the port text reads back as the port
    let tail = f.skip(host.len() as int + 1);
    assert(tail =~= d);
    assert(d[0] != '+') by {
        assert(is_dec_digit(d[0]));
    }
    assert(parse_u16_chars(tail) == Some(port));
    assert(f.take(host.len() as int) =~= host);
}

} // verus!
