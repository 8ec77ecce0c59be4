use vstd::prelude::*;
use vstd::string::StrSliceExecFns;
use vstd::utf8::encode_utf8;

verus! {

/// A decoded protocol value, restricted to the shapes that the routing
/// and scan logic reads. A double is carried as its raw IEEE-754 bit
/// pattern so that the numeric payload passes through this core unchanged;
/// the connection layer converts at the boundary.
#[derive(Debug, PartialEq)]
pub enum RedisValue {
    Integer(i64),
    Double(u64),
    String(String),
    Bytes(Vec<u8>),
    Array(Vec<RedisValue>),
    Null,
}

/// A key of a hash map decoded from a scan page: the raw bytes of either a
/// string or a bytes value.
#[derive(Debug, Clone, PartialEq)]
pub struct RedisKey {
    pub key: Vec<u8>,
}

impl View for RedisKey {
    type V = Seq<u8>;

    open spec fn view(&self) -> Seq<u8> {
        self.key@
    }
}

impl RedisKey {
    /// Build a key from a string value, taking its UTF-8 bytes.
    pub fn from_string(s: &String) -> (r: RedisKey)
        ensures
            r@ == encode_utf8(s@),
    {
        RedisKey { key: s.as_str().as_bytes_vec() }
    }

    /// Build a key from raw bytes.
    pub fn from_bytes(b: Vec<u8>) -> (r: RedisKey)
        ensures
            r@ == b@,
    {
        RedisKey { key: b }
    }
}

/// The key bytes a scan-page element stands for, where the element is a
/// string or a bytes value.
pub open spec fn key_bytes_of(v: RedisValue) -> Seq<u8> {
    match v {
        RedisValue::String(s) => encode_utf8(s@),
        RedisValue::Bytes(b) => b@,
        _ => Seq::empty(),
    }
}

/// Whether a scan-page element may serve as a hash-map key.
pub open spec fn is_key_value(v: RedisValue) -> bool {
    v is String || v is Bytes
}

/// First-match lookup in an association list.
pub open spec fn assoc_lookup(s: Seq<(RedisKey, RedisValue)>, k: Seq<u8>) -> Option<RedisValue>
    decreases s.len(),
{
    if s.len() == 0 {
        None
    } else if s[0].0@ == k {
        Some(s[0].1)
    } else {
        assoc_lookup(s.drop_first(), k)
    }
}

/// A mapping from key bytes to values with unique keys; the order of the
/// entries is unspecified.
#[derive(Debug, PartialEq)]
pub struct RedisMap {
    pub pairs: Vec<(RedisKey, RedisValue)>,
}

impl RedisMap {
    /// All keys are distinct.
    pub open spec fn wf(&self) -> bool {
        forall|i: int, j: int|
            0 <= i < j < self.pairs@.len() ==> self.pairs@[i].0@ != self.pairs@[j].0@
    }

    /// What the map associates with key bytes `k`.
    pub open spec fn spec_get(&self, k: Seq<u8>) -> Option<RedisValue> {
        assoc_lookup(self.pairs@, k)
    }

    pub fn new() -> (r: RedisMap)
        ensures
            r.pairs@.len() == 0,
            r.wf(),
    {
        RedisMap { pairs: Vec::new() }
    }

    pub fn len(&self) -> (n: usize)
        ensures
            n == self.pairs@.len(),
    {
        self.pairs.len()
    }

    pub fn is_empty(&self) -> (r: bool)
        ensures
            r == (self.pairs@.len() == 0),
    {
        self.pairs.len() == 0
    }

    /// Look the value for `k` up by scanning the entries.
    pub fn get<'a>(&'a self, k: &[u8]) -> (r: Option<&'a RedisValue>)
        ensures
            match r {
                Some(v) => self.spec_get(k@) == Some(*v),
                None => self.spec_get(k@) is None,
            },
    {
        let mut i: usize = 0;
        proof {
            assert(self.pairs@.skip(0) =~= self.pairs@);
        }
        while i < self.pairs.len()
            invariant
                0 <= i <= self.pairs@.len(),
                assoc_lookup(self.pairs@, k@) == assoc_lookup(self.pairs@.skip(i as int), k@),
            decreases self.pairs@.len() - i,
        {
            proof {
                lemma_assoc_lookup_skip_step(self.pairs@, k@, i as int);
            }
            if bytes_eq(&self.pairs[i].0.key, k) {
                return Some(&self.pairs[i].1);
            }
            i = i + 1;
        }
        None
    }

    /// Add an entry unless its key is already present; the earlier entry
    /// wins, as when a later duplicate pair of a scan page is ignored.
    pub fn insert_if_absent(&mut self, key: RedisKey, value: RedisValue)
        requires
            old(self).wf(),
        ensures
            final(self).wf(),
            final(self).pairs@ == (if old(self).spec_get(key@) is Some {
                old(self).pairs@
            } else {
                old(self).pairs@.push((key, value))
            }),
    {
        proof {
            lemma_assoc_lookup_some_iff_exists(self.pairs@, key@);
        }
        let present = self.contains_key(&key.key);
        if !present {
            self.pairs.push((key, value));
        }
    }

    /// Whether the map holds an entry for `k`.
    pub fn contains_key(&self, k: &[u8]) -> (r: bool)
        ensures
            r == (self.spec_get(k@) is Some),
    {
        match self.get(k) {
            Some(_) => true,
            None => false,
        }
    }
}

/// A lookup succeeds exactly when some entry carries the key.
pub proof fn lemma_assoc_lookup_some_iff_exists(s: Seq<(RedisKey, RedisValue)>, k: Seq<u8>)
    ensures
        (assoc_lookup(s, k) is Some) <==> (exists|i: int| 0 <= i < s.len() && s[i].0@ == k),
    decreases s.len(),
{
    if s.len() > 0 {
        if s[0].0@ == k {
        } else {
            lemma_assoc_lookup_some_iff_exists(s.drop_first(), k);
            if assoc_lookup(s.drop_first(), k) is Some {
                let i = choose|i: int|
                    0 <= i < s.drop_first().len() && s.drop_first()[i].0@ == k;
                assert(s[i + 1].0@ == k);
            } else {
                assert forall|i: int| 0 <= i < s.len() implies s[i].0@ != k by {
                    if i > 0 {
                        assert(s.drop_first()[i - 1] == s[i]);
                    }
                }
            }
        }
    }
}

/// Skipping past entries that do not match keeps the lookup result.
pub proof fn lemma_assoc_lookup_skip_step(s: Seq<(RedisKey, RedisValue)>, k: Seq<u8>, i: int)
    requires
        0 <= i < s.len(),
    ensures
        s[i].0@ == k ==> assoc_lookup(s.skip(i), k) == Some(s[i].1),
        s[i].0@ != k ==> assoc_lookup(s.skip(i), k) == assoc_lookup(s.skip(i + 1), k),
{
    assert(s.skip(i)[0] == s[i]);
    assert(s.skip(i).drop_first() =~= s.skip(i + 1));
}

/// Appending an entry changes a lookup only where no earlier entry matched.
pub proof fn lemma_assoc_lookup_push(
    s: Seq<(RedisKey, RedisValue)>,
    p: (RedisKey, RedisValue),
    k: Seq<u8>,
)
    ensures
        assoc_lookup(s.push(p), k) == (if assoc_lookup(s, k) is Some {
            assoc_lookup(s, k)
        } else if p.0@ == k {
            Some(p.1)
        } else {
            None::<RedisValue>
        }),
    decreases s.len(),
{
    if s.len() == 0 {
        assert(s.push(p)[0] == p);
        assert(s.push(p).drop_first() =~= Seq::<(RedisKey, RedisValue)>::empty());
        if p.0@ == k {
            assert(assoc_lookup(s.push(p), k) == Some(p.1));
        } else {
            assert(assoc_lookup(s.push(p), k) == assoc_lookup(s.push(p).drop_first(), k));
        }
    } else {
        assert(s.push(p)[0] == s[0]);
        assert(s.push(p).drop_first() =~= s.drop_first().push(p));
        lemma_assoc_lookup_push(s.drop_first(), p, k);
        if s[0].0@ == k {
            assert(assoc_lookup(s.push(p), k) == Some(s[0].1));
            assert(assoc_lookup(s, k) == Some(s[0].1));
        } else {
            assert(assoc_lookup(s.push(p), k) == assoc_lookup(s.drop_first().push(p), k));
            assert(assoc_lookup(s, k) == assoc_lookup(s.drop_first(), k));
        }
    }
}

/// Compare two byte strings for equality.
pub fn bytes_eq(a: &[u8], b: &[u8]) -> (r: bool)
    ensures
        r == (a@ == b@),
{
    if a.len() != b.len() {
        proof {
            assert(a@.len() != b@.len());
        }
        return false;
    }
    let mut i: usize = 0;
    while i < a.len()
        invariant
            0 <= i <= a@.len(),
            a@.len() == b@.len(),
            forall|j: int| 0 <= j < i ==> a@[j] == b@[j],
        decreases a@.len() - i,
    {
        if a[i] != b[i] {
            return false;
        }
        i = i + 1;
    }
    proof {
        assert(a@ =~= b@);
    }
    true
}

/// The kind of publish/subscribe message, named by the leading element of a
/// server-pushed frame.
#[derive(Clone, Copy, Debug, PartialEq, Eq, Structural)]
pub enum MessageKind {
    /// A message from a plain subscription.
    Message,
    /// A message from a pattern subscription.
    PMessage,
    /// A message from a sharded subscription.
    SMessage,
}

/// Which message kind a subscription-variant name stands for.
pub open spec fn spec_message_kind(s: Seq<char>) -> Option<MessageKind> {
    if s == "message"@ {
        Some(MessageKind::Message)
    } else if s == "pmessage"@ {
        Some(MessageKind::PMessage)
    } else if s == "smessage"@ {
        Some(MessageKind::SMessage)
    } else {
        None
    }
}

impl MessageKind {
    /// Decode the subscription-variant name of a pushed frame.
    pub fn from_str(s: &str) -> (r: Option<MessageKind>)
        ensures
            r == spec_message_kind(s@),
    {
        if str_eq(s, "message") {
            Some(MessageKind::Message)
        } else if str_eq(s, "pmessage") {
            Some(MessageKind::PMessage)
        } else if str_eq(s, "smessage") {
            Some(MessageKind::SMessage)
        } else {
            None
        }
    }
}

/// A decoded publish/subscribe event.
#[derive(Debug, PartialEq)]
pub struct Message {
    /// The channel on which the message was sent.
    pub channel: String,
    /// The message contents.
    pub value: RedisValue,
    /// The type of message subscription.
    pub kind: MessageKind,
}

/// Compare two string slices for equality of their character sequences.
pub fn str_eq(a: &str, b: &str) -> (r: bool)
    ensures
        r == (a@ == b@),
{
    let x = a.to_owned();
    let y = b.to_owned();
    x == y
}

} // verus!
