use vstd::prelude::*;

verus! {

/// A decoded frame of the older wire protocol: no native map, set, double
/// or boolean framing exists in it.
#[derive(Debug, PartialEq)]
pub enum Resp2Frame {
    /// A short status string.
    SimpleString(Vec<u8>),
    /// An error payload.
    Error(String),
    /// A signed integer.
    Integer(i64),
    /// A binary-safe blob.
    BulkString(Vec<u8>),
    /// An array of frames.
    Array(Vec<Resp2Frame>),
    /// The null value.
    Null,
}

/// A decoded frame of the canonical, newer wire protocol. Every decoding
/// step above the protocol layer operates on this form alone. A double is
/// carried as its raw IEEE-754 bit pattern.
#[derive(Debug, PartialEq)]
pub enum Resp3Frame {
    /// A short status string.
    SimpleString(Vec<u8>),
    /// An error payload.
    SimpleError(String),
    /// A signed integer.
    Number(i64),
    /// A binary-safe blob.
    BlobString(Vec<u8>),
    /// An array of frames.
    Array(Vec<Resp3Frame>),
    /// A boolean, which the older protocol cannot frame natively.
    Boolean(bool),
    /// A double as its bit pattern, likewise newer-protocol-only.
    Double(u64),
    /// A map of frame pairs, likewise newer-protocol-only.
    Mapping(Vec<(Resp3Frame, Resp3Frame)>),
    /// A set of frames, likewise newer-protocol-only.
    SetOf(Vec<Resp3Frame>),
    /// The null value.
    Null,
}

/// The lossless structural upgrade relation from the older representation
/// to the canonical one: status strings, errors, integers, blobs and nulls
/// map onto their canonical equivalents, and arrays map element by element.
pub open spec fn upgraded(a: Resp2Frame, b: Resp3Frame) -> bool
    decreases a,
{
    match a {
        Resp2Frame::SimpleString(x) => b matches Resp3Frame::SimpleString(y) && y@ == x@,
        Resp2Frame::Error(x) => b matches Resp3Frame::SimpleError(y) && y@ == x@,
        Resp2Frame::Integer(i) => b == Resp3Frame::Number(i),
        Resp2Frame::BulkString(x) => b matches Resp3Frame::BlobString(y) && y@ == x@,
        Resp2Frame::Null => b is Null,
        Resp2Frame::Array(xs) => b matches Resp3Frame::Array(ys) && xs@.len() == ys@.len()
            && (forall|i: int| 0 <= i < xs@.len() ==> upgraded(#[trigger] xs@[i], ys@[i])),
    }
}

impl Resp2Frame {
    /// Convert this frame to its canonical structural equivalent.
    pub fn upgrade(self) -> (r: Resp3Frame)
        ensures
            upgraded(self, r),
        decreases self,
    {
        let ghost snap = self;
        match self {
            Resp2Frame::SimpleString(x) => Resp3Frame::SimpleString(x),
            Resp2Frame::Error(x) => Resp3Frame::SimpleError(x),
            Resp2Frame::Integer(i) => Resp3Frame::Number(i),
            Resp2Frame::BulkString(x) => Resp3Frame::BlobString(x),
            Resp2Frame::Null => Resp3Frame::Null,
            Resp2Frame::Array(xs) => {
                let ghost fsnap = xs;
                let ghost orig = xs@;
                let mut rest = xs;
                let mut out: Vec<Resp3Frame> = Vec::new();
                let ghost mut done: int = 0;
                while rest.len() > 0
                    invariant
                        snap == self,
                        snap == Resp2Frame::Array(fsnap),
                        fsnap@ == orig,
                        0 <= done <= orig.len(),
                        out@.len() == done,
                        rest@ =~= orig.skip(done),
                        forall|i: int|
                            0 <= i < out@.len() ==> upgraded(#[trigger] orig[i], out@[i]),
                    decreases rest@.len(),
                {
                    let ghost rest_before = rest@;
                    let x = rest.remove(0);
                    proof {
                        assert(rest_before =~= orig.skip(done));
                        assert(rest_before.len() > 0);
                        assert(orig.skip(done).len() == orig.len() - done);
                        assert(done < orig.len());
                        assert(x == rest_before[0]);
                        assert(rest_before[0] == orig.skip(done)[0]);
                        assert(x == orig[done]);
                        assert(x == fsnap@[done]);
                        assert(rest@ =~= rest_before.drop_first());
                        assert(rest@ =~= orig.skip(done + 1));
                        vstd::std_specs::vec::axiom_vec_index_decreases(fsnap, done);
                        assert(decreases_to!(fsnap => x));
                        assert(snap->Array_0 == fsnap);
                        assert(decreases_to!(snap => snap->Array_0));
                        assert(decreases_to!(snap => x));
                    }
                    let y = x.upgrade();
                    out.push(y);
                    proof {
                        done = done + 1;
                    }
                }
                proof {
                    assert(out@.len() == orig.len());
                }
                Resp3Frame::Array(out)
            },
        }
    }
}

/// A received frame of either wire-protocol version, before normalization.
#[derive(Debug, PartialEq)]
pub enum ProtocolFrame {
    /// A frame of the older protocol.
    Resp2(Resp2Frame),
    /// A frame of the canonical protocol.
    Resp3(Resp3Frame),
}

impl ProtocolFrame {
    /// Normalize to the canonical representation, applied once, right
    /// after a frame is received. An already-canonical frame is returned
    /// unchanged, so the upgrade is idempotent; an older-protocol frame is
    /// upgraded structurally and losslessly.
    pub fn into_resp3(self) -> (r: Resp3Frame)
        ensures
            match self {
                ProtocolFrame::Resp3(f) => r == f,
                ProtocolFrame::Resp2(f) => upgraded(f, r),
            },
    {
        match self {
            ProtocolFrame::Resp2(frame) => frame.upgrade(),
            ProtocolFrame::Resp3(frame) => frame,
        }
    }
}

impl From<Resp2Frame> for ProtocolFrame {
    fn from(frame: Resp2Frame) -> (r: ProtocolFrame) {
        ProtocolFrame::Resp2(frame)
    }
}

impl vstd::std_specs::convert::FromSpecImpl<Resp2Frame> for ProtocolFrame {
    open spec fn obeys_from_spec() -> bool {
        true
    }

    open spec fn from_spec(frame: Resp2Frame) -> ProtocolFrame {
        ProtocolFrame::Resp2(frame)
    }
}

impl From<Resp3Frame> for ProtocolFrame {
    fn from(frame: Resp3Frame) -> (r: ProtocolFrame) {
        ProtocolFrame::Resp3(frame)
    }
}

impl vstd::std_specs::convert::FromSpecImpl<Resp3Frame> for ProtocolFrame {
    open spec fn obeys_from_spec() -> bool {
        true
    }

    open spec fn from_spec(frame: Resp3Frame) -> ProtocolFrame {
        ProtocolFrame::Resp3(frame)
    }
}

} // verus!
