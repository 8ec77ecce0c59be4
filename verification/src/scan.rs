use vstd::prelude::*;
use vstd::string::StrSliceExecFns;
use crate::errors::{RedisError, RedisErrorKind};
use crate::server::Server;
use crate::value::{
    RedisValue, RedisKey, RedisMap, key_bytes_of, is_key_value, lemma_assoc_lookup_push,
};

verus! {

// ---------------------------------------------------------------------------
// Scores of sorted-set scan pages.
//
// A score element decodes as a number. A textual score must have the shape
// the server emits: an optional sign, then `inf` or a decimal number with an
// optional fraction and an optional exponent. The numeric payload itself is
// carried through this core unconverted: as the validated text, the integer,
// or the raw IEEE-754 bits of a double. The connection layer converts at the
// boundary.
// ---------------------------------------------------------------------------

/// A sorted-set member's score as decoded from a scan page.
#[derive(Debug, Clone, PartialEq)]
pub enum Score {
    /// A numeric string, validated against the textual score shape.
    Text(String),
    /// An integer score.
    Int(i64),
    /// A double score, as its raw IEEE-754 bit pattern.
    Bits(u64),
}

pub open spec fn is_digit(c: char) -> bool {
    48 <= c as int && c as int <= 57
}

/// How many characters of the front of `s` are decimal digits.
pub open spec fn digits_prefix_len(s: Seq<char>) -> int
    decreases s.len(),
{
    if s.len() > 0 && is_digit(s[0]) {
        1 + digits_prefix_len(s.drop_first())
    } else {
        0
    }
}

/// `s` without one leading sign character, if any.
pub open spec fn strip_sign(s: Seq<char>) -> Seq<char> {
    if s.len() > 0 && (s[0] == '+' || s[0] == '-') {
        s.drop_first()
    } else {
        s
    }
}

/// An exponent's tail: an optional sign, then at least one digit and
/// nothing else.
pub open spec fn is_exp_tail(s: Seq<char>) -> bool {
    let u = strip_sign(s);
    u.len() > 0 && digits_prefix_len(u) == u.len()
}

/// An optional exponent: empty, or `e`/`E` followed by an exponent tail.
pub open spec fn is_exp_part(s: Seq<char>) -> bool {
    s.len() == 0 || ((s[0] == 'e' || s[0] == 'E') && is_exp_tail(s.drop_first()))
}

/// What may follow the integral digits: nothing, a fraction of at least one
/// digit with an optional exponent, or an exponent directly.
pub open spec fn is_frac_exp(s: Seq<char>) -> bool {
    if s.len() == 0 {
        true
    } else if s[0] == '.' {
        let d = digits_prefix_len(s.drop_first());
        d > 0 && is_exp_part(s.drop_first().skip(d))
    } else {
        is_exp_part(s)
    }
}

/// The textual score shape: an optional sign, then `inf` or digits with an
/// optional fraction and exponent.
pub open spec fn is_score_text(s: Seq<char>) -> bool {
    let t = strip_sign(s);
    t == "inf"@ || {
        let d = digits_prefix_len(t);
        d > 0 && is_frac_exp(t.skip(d))
    }
}

/// The score a page element stands for, if it decodes as one.
pub open spec fn score_of(v: RedisValue) -> Option<Score> {
    match v {
        RedisValue::String(s) => if is_score_text(s@) {
            Some(Score::Text(s))
        } else {
            None
        },
        RedisValue::Integer(i) => Some(Score::Int(i)),
        RedisValue::Double(b) => Some(Score::Bits(b)),
        _ => None,
    }
}

/// The digit-prefix count lies between zero and the length.
pub proof fn lemma_digits_prefix_len_bounds(s: Seq<char>)
    ensures
        0 <= digits_prefix_len(s) <= s.len(),
    decreases s.len(),
{
    if s.len() > 0 && is_digit(s[0]) {
        lemma_digits_prefix_len_bounds(s.drop_first());
    }
}

/// Whether a character is a decimal digit.
fn is_digit_exec(c: char) -> (r: bool)
    ensures
        r == is_digit(c),
{
    let x = c as u32;
    48 <= x && x <= 57
}

/// Collect the characters of a string slice.
pub(crate) fn chars_of(s: &str) -> (v: Vec<char>)
    ensures
        v@ == s@,
{
    let n = s.unicode_len();
    let mut v: Vec<char> = Vec::new();
    let mut i: usize = 0;
    while i < n
        invariant
            n == s@.len(),
            0 <= i <= n,
            v@ =~= s@.take(i as int),
        decreases n - i,
    {
        v.push(s.get_char(i));
        proof {
            assert(v@ =~= s@.take(i as int + 1));
        }
        i = i + 1;
    }
    proof {
        assert(s@.take(n as int) =~= s@);
    }
    v
}

/// Walk a run of digits beginning at `from`.
fn digits_run(v: &Vec<char>, from: usize) -> (r: usize)
    requires
        from <= v@.len(),
    ensures
        from <= r <= v@.len(),
        r - from == digits_prefix_len(v@.skip(from as int)),
        forall|j: int| from <= j < r ==> is_digit(v@[j]),
{
    let mut r = from;
    while r < v.len() && is_digit_exec(v[r])
        invariant
            from <= r <= v@.len(),
            forall|j: int| from <= j < r ==> is_digit(v@[j]),
            digits_prefix_len(v@.skip(from as int)) == (r - from) + digits_prefix_len(
                v@.skip(r as int),
            ),
        decreases v@.len() - r,
    {
        proof {
            assert(v@.skip(r as int)[0] == v@[r as int]);
            assert(v@.skip(r as int).drop_first() =~= v@.skip(r as int + 1));
        }
        r = r + 1;
    }
    proof {
        if r < v@.len() {
            assert(v@.skip(r as int)[0] == v@[r as int]);
            assert(!is_digit(v@.skip(r as int)[0]));
        }
        assert(digits_prefix_len(v@.skip(r as int)) == 0);
        lemma_digits_prefix_len_bounds(v@.skip(from as int));
    }
    r
}

/// Check an optional exponent beginning at `from`.
fn exp_part_check(v: &Vec<char>, from: usize) -> (r: bool)
    requires
        from <= v@.len(),
    ensures
        r == is_exp_part(v@.skip(from as int)),
{
    let n = v.len();
    if from == n {
        return true;
    }
    proof {
        assert(v@.skip(from as int)[0] == v@[from as int]);
    }
    if !(v[from] == 'e' || v[from] == 'E') {
        return false;
    }
    // the exponent tail: optional sign, then digits to the end
    let tail_start = from + 1;
    proof {
        assert(v@.skip(from as int).drop_first() =~= v@.skip(tail_start as int));
    }
    let u_start: usize = if tail_start < n && (v[tail_start] == '+' || v[tail_start] == '-') {
        tail_start + 1
    } else {
        tail_start
    };
    proof {
        if tail_start < n && (v@[tail_start as int] == '+' || v@[tail_start as int] == '-') {
            assert(v@.skip(tail_start as int)[0] == v@[tail_start as int]);
            assert(v@.skip(tail_start as int).drop_first() =~= v@.skip(u_start as int));
        } else {
            if v@.skip(tail_start as int).len() > 0 {
                assert(v@.skip(tail_start as int)[0] == v@[tail_start as int]);
            }
            assert(strip_sign(v@.skip(tail_start as int)) == v@.skip(tail_start as int));
        }
    }
    let d = digits_run(v, u_start);
    d > u_start && d == n
}

/// Check the textual score shape.
pub fn score_text_check(s: &str) -> (r: bool)
    ensures
        r == is_score_text(s@),
{
    let v = chars_of(s);
    let n = v.len();
    let start: usize = if n > 0 && (v[0] == '+' || v[0] == '-') {
        1
    } else {
        0
    };
    proof {
        if n > 0 && (v@[0] == '+' || v@[0] == '-') {
            assert(v@.skip(1) =~= v@.drop_first());
        } else {
            assert(v@.skip(0) =~= v@);
        }
        assert(v@.skip(start as int) =~= strip_sign(s@));
        reveal_strlit("inf");
    }
    if n - start == 3 && v[start] == 'i' && v[start + 1] == 'n' && v[start + 2] == 'f' {
        proof {
            assert(v@.skip(start as int) =~= "inf"@);
        }
        return true;
    }
    proof {
        // the trimmed text is not `inf`: its length or one of its three
        // characters differs
        let t = v@.skip(start as int);
        if t.len() == 3 {
            assert(t[0] == v@[start as int]);
            assert(t[1] == v@[start as int + 1]);
            assert(t[2] == v@[start as int + 2]);
        }
        assert(t != "inf"@);
    }
    let d_end = digits_run(&v, start);
    if d_end == start {
        return false;
    }
    if d_end == n {
        proof {
            assert(strip_sign(s@).skip(d_end - start as int) =~= v@.skip(d_end as int));
        }
        return true;
    }
    proof {
        assert(strip_sign(s@).skip(d_end - start as int) =~= v@.skip(d_end as int));
        assert(v@.skip(d_end as int)[0] == v@[d_end as int]);
    }
    if v[d_end] == '.' {
        proof {
            assert(v@.skip(d_end as int).drop_first() =~= v@.skip(d_end as int + 1));
        }
        let d2 = digits_run(&v, d_end + 1);
        if d2 == d_end + 1 {
            return false;
        }
        proof {
            assert(v@.skip(d_end as int + 1).skip(d2 - (d_end as int + 1)) =~= v@.skip(
                d2 as int,
            ));
        }
        exp_part_check(&v, d2)
    } else {
        exp_part_check(&v, d_end)
    }
}

// ---------------------------------------------------------------------------
// Scan state machines: the per-stream state and the page transforms.
// ---------------------------------------------------------------------------

/// Per-stream state for key-space iteration. The sender half of the result
/// channel is owned by the driving loop in the connection layer, which is
/// also where errors are pushed onto the stream.
#[derive(Debug)]
pub struct KeyScanInner {
    /// The hash slot for the command, when pinned to a cluster slot.
    pub hash_slot: Option<u16>,
    /// An optional server override.
    pub server: Option<Server>,
    /// The index of the cursor in `args`.
    pub cursor_idx: usize,
    /// The arguments sent in each scan command.
    pub args: Vec<RedisValue>,
}

impl KeyScanInner {
    /// The cursor argument's position lies within the argument list.
    pub open spec fn wf(&self) -> bool {
        self.cursor_idx < self.args@.len()
    }

    /// Update the cursor in place in the arguments.
    pub fn update_cursor(&mut self, cursor: String)
        requires
            old(self).wf(),
        ensures
            final(self).args@ == old(self).args@.update(
                old(self).cursor_idx as int,
                RedisValue::String(cursor),
            ),
            final(self).cursor_idx == old(self).cursor_idx,
            final(self).hash_slot == old(self).hash_slot,
            final(self).server == old(self).server,
            final(self).wf(),
    {
        self.args.set(self.cursor_idx, RedisValue::String(cursor));
    }
}

/// Which collection-member scan a value-scan page belongs to, carrying the
/// decoded page.
#[derive(Debug, PartialEq)]
pub enum ValueScanResult {
    /// A page of set members.
    SScan(Vec<RedisValue>),
    /// A page of hash entries.
    HScan(RedisMap),
    /// A page of sorted-set members with their scores, in page order.
    ZScan(Vec<(RedisValue, Score)>),
}

/// Per-stream state for member iteration over one key-bearing collection.
#[derive(Debug)]
pub struct ValueScanInner {
    /// The index of the cursor argument in `args`.
    pub cursor_idx: usize,
    /// The arguments sent in each scan command.
    pub args: Vec<RedisValue>,
}

/// A well-formed hash-scan page: an even number of elements whose keys are
/// strings or bytes.
pub open spec fn hscan_wf(data: Seq<RedisValue>) -> bool {
    data.len() % 2 == 0 && forall|i: int|
        0 <= i < data.len() && i % 2 == 0 ==> is_key_value(data[i])
}

/// What a hash-scan page associates with key bytes `k`: the value of the
/// first pair carrying that key.
pub open spec fn hscan_lookup(data: Seq<RedisValue>, k: Seq<u8>) -> Option<RedisValue>
    decreases data.len(),
{
    if data.len() < 2 {
        None
    } else if key_bytes_of(data[0]) == k {
        Some(data[1])
    } else {
        hscan_lookup(data.skip(2), k)
    }
}

/// A well-formed sorted-set scan page: an even number of elements whose
/// score positions decode as numbers.
pub open spec fn zscan_wf(data: Seq<RedisValue>) -> bool {
    data.len() % 2 == 0 && forall|i: int|
        0 <= i < data.len() && i % 2 == 1 ==> score_of(#[trigger] data[i]) is Some
}

impl ValueScanInner {
    /// The cursor argument's position lies within the argument list.
    pub open spec fn wf(&self) -> bool {
        self.cursor_idx < self.args@.len()
    }

    /// Update the cursor in place in the arguments.
    pub fn update_cursor(&mut self, cursor: String)
        requires
            old(self).wf(),
        ensures
            final(self).args@ == old(self).args@.update(
                old(self).cursor_idx as int,
                RedisValue::String(cursor),
            ),
            final(self).cursor_idx == old(self).cursor_idx,
            final(self).wf(),
    {
        self.args.set(self.cursor_idx, RedisValue::String(cursor));
    }

    /// Turn a flat hash-scan page of alternating keys and values into a
    /// mapping. The whole page fails on an odd element count or on a key
    /// that is neither a string nor bytes; a later duplicate key does not
    /// displace an earlier one, and entry order is unspecified.
    pub fn transform_hscan_result(data: Vec<RedisValue>) -> (r: Result<RedisMap, RedisError>)
        ensures
            r is Ok <==> hscan_wf(data@),
            r matches Ok(m) ==> m.wf() && forall|k: Seq<u8>|
                #[trigger] m.spec_get(k) == hscan_lookup(data@, k),
            r matches Err(e) ==> e.kind == RedisErrorKind::Protocol,
    {
        let ghost orig = data@;
        let mut rest = data;
        if rest.len() % 2 != 0 {
            return Err(
                RedisError::new(
                    RedisErrorKind::Protocol,
                    "Invalid HSCAN result. Expected array with an even number of elements.",
                ),
            );
        }
        let mut out = RedisMap::new();
        let ghost mut done: int = 0;
        while rest.len() >= 2
            invariant
                data@ == orig,
                out.wf(),
                orig.len() % 2 == 0,
                0 <= done,
                2 * done <= orig.len(),
                rest@ =~= orig.skip(2 * done),
                forall|i: int| 0 <= i < done ==> is_key_value(#[trigger] orig[2 * i]),
                forall|k: Seq<u8>| #[trigger] hscan_lookup(orig, k) == (if out.spec_get(k)
                    is Some {
                    out.spec_get(k)
                } else {
                    hscan_lookup(rest@, k)
                }),
            decreases rest@.len(),
        {
            let ghost data_before = rest@;
            let key_value = rest.remove(0);
            let value = rest.remove(0);
            proof {
                assert(data_before[0] == key_value);
                assert(data_before[1] == value);
                assert(rest@ =~= data_before.skip(2));
                assert(orig[2 * done] == key_value);
            }
            let key = match key_value {
                RedisValue::String(s) => RedisKey::from_string(&s),
                RedisValue::Bytes(b) => RedisKey::from_bytes(b),
                _ => {
                    proof {
                        assert(0 <= 2 * done < orig.len());
                        assert((2 * done) % 2 == 0);
                        assert(!is_key_value(orig[2 * done]));
                        assert(!hscan_wf(orig));
                        
                    }
                    return Err(
                        RedisError::new(
                            RedisErrorKind::Protocol,
                            "Invalid HSCAN result. Expected string.",
                        ),
                    );
                },
            };
            let ghost out_before = out;
            proof {
                assert(key@ == key_bytes_of(data_before[0]));
            }
            out.insert_if_absent(key, value);
            proof {
                done = done + 1;
                assert forall|k: Seq<u8>| #[trigger] hscan_lookup(orig, k) == (if out.spec_get(
                    k,
                ) is Some {
                    out.spec_get(k)
                } else {
                    hscan_lookup(rest@, k)
                }) by {
                    lemma_assoc_lookup_push(
                        out_before.pairs@,
                        (key, value),
                        k,
                    );
                    assert(hscan_lookup(data_before, k) == (if key_bytes_of(data_before[0])
                        == k {
                        Some(data_before[1])
                    } else {
                        hscan_lookup(data_before.skip(2), k)
                    }));
                }
            }
        }
        proof {
            assert(rest@.len() == 0);
            assert forall|k: Seq<u8>| #[trigger] out.spec_get(k) == hscan_lookup(orig, k) by {
                assert(hscan_lookup(rest@, k) is None);
            }
            assert(2 * done == orig.len());
            assert forall|i: int| 0 <= i < orig.len() && i % 2 == 0 implies is_key_value(
                orig[i],
            ) by {
                assert(orig[2 * (i / 2)] == orig[i]);
            }
        }
        Ok(out)
    }

    /// Turn a flat sorted-set scan page of alternating members and scores
    /// into an ordered sequence of pairs, preserving page order. The whole
    /// page fails on an odd element count or on a score element that does
    /// not decode as a number.
    pub fn transform_zscan_result(data: Vec<RedisValue>) -> (r: Result<
        Vec<(RedisValue, Score)>,
        RedisError,
    >)
        ensures
            r is Ok <==> zscan_wf(data@),
            r matches Ok(out) ==> out@.len() == data@.len() / 2 && forall|i: int|
                #![trigger out@[i]]
                0 <= i < out@.len() ==> out@[i].0 == data@[2 * i] && Some(out@[i].1) == score_of(
                    data@[2 * i + 1],
                ),
            r matches Err(e) ==> e.kind == RedisErrorKind::Protocol,
    {
        let ghost orig = data@;
        let mut rest = data;
        if rest.len() % 2 != 0 {
            return Err(
                RedisError::new(
                    RedisErrorKind::Protocol,
                    "Invalid ZSCAN result. Expected array with an even number of elements.",
                ),
            );
        }
        let mut out: Vec<(RedisValue, Score)> = Vec::new();
        while rest.len() >= 2
            invariant
                data@ == orig,
                orig.len() % 2 == 0,
                2 * out@.len() as int <= orig.len(),
                rest@ =~= orig.skip(2 * out@.len() as int),
                forall|i: int|
                    #![trigger out@[i]]
                    0 <= i < out@.len() ==> out@[i].0 == orig[2 * i] && Some(out@[i].1)
                        == score_of(orig[2 * i + 1]),
            decreases rest@.len(),
        {
            let ghost data_before = rest@;
            let ghost done = out@.len() as int;
            let member = rest.remove(0);
            let score_value = rest.remove(0);
            proof {
                assert(data_before[0] == member);
                assert(data_before[1] == score_value);
                assert(rest@ =~= data_before.skip(2));
                assert(orig[2 * done] == member);
                assert(orig[2 * done + 1] == score_value);
            }
            let score = match score_value {
                RedisValue::String(s) => {
                    if score_text_check(s.as_str()) {
                        Score::Text(s)
                    } else {
                        proof {
                            assert(score_of(orig[2 * done + 1]) is None);
                            assert((2 * done + 1) % 2 == 1);
                            assert(!zscan_wf(orig));
                        }
                        return Err(
                            RedisError::new(
                                RedisErrorKind::Protocol,
                                "Invalid ZSCAN result. Expected a string or number score.",
                            ),
                        );
                    }
                },
                RedisValue::Integer(i) => Score::Int(i),
                RedisValue::Double(b) => Score::Bits(b),
                _ => {
                    proof {
                        assert(score_of(orig[2 * done + 1]) is None);
                        assert((2 * done + 1) % 2 == 1);
                        assert(!zscan_wf(orig));
                    }
                    return Err(
                        RedisError::new(
                            RedisErrorKind::Protocol,
                            "Invalid ZSCAN result. Expected a string or number score.",
                        ),
                    );
                },
            };
            out.push((member, score));
            proof {
                assert(out@[done].0 == member);
                assert(Some(out@[done].1) == score_of(orig[2 * done + 1]));
            }
        }
        proof {
            assert(rest@.len() == 0);
            assert(2 * out@.len() as int == orig.len());
            assert forall|i: int| 0 <= i < orig.len() && i % 2 == 1 implies score_of(
                #[trigger] orig[i],
            ) is Some by {
                let j = (i - 1) / 2;
                assert(0 <= j < out@.len());
                assert(out@[j].0 == orig[2 * j] && Some(out@[j].1) == score_of(orig[2 * j + 1]));
                assert(2 * j + 1 == i);
            }
        }
        Ok(out)
    }
}

} // verus!
