//! The canonical binary codec of the trace format: little-endian, tagged,
//! length-prefixed frames.  Every encoder has a matching decoder, and
//! decoding what was encoded gives the original back.

use vstd::bytes::{
    spec_u32_from_le_bytes, spec_u32_to_le_bytes, spec_u64_from_le_bytes, spec_u64_to_le_bytes,
    u32_from_le_bytes, u32_to_le_bytes, u64_from_le_bytes, u64_to_le_bytes,
    lemma_auto_spec_u32_to_from_le_bytes, lemma_auto_spec_u64_to_from_le_bytes,
};
use vstd::prelude::*;
use vstd::utf8::{char_is_scalar, char_u32_cast, is_scalar};

use crate::counters::CounterType;
use crate::jobs::JobDesc;

verus! {

/// The unsigned word a signed value is stored as: shifted up by half the
/// range, so that order is preserved and the map is a bijection.
pub open spec fn off_i64(v: int) -> int {
    v + 0x8000_0000_0000_0000
}

/// The signed value an unsigned word stands for.
pub open spec fn unoff_i64(u: int) -> int {
    u - 0x8000_0000_0000_0000
}

/// Shift a signed word into its stored form.
pub fn off_i64_exec(v: i64) -> (r: u64)
    ensures
        r == off_i64(v as int),
{
    if v >= 0 {
        (v as u64) + 0x8000_0000_0000_0000u64
    } else {
        (v - i64::MIN) as u64
    }
}

/// Shift a stored word back to its signed value.
pub fn unoff_i64_exec(u: u64) -> (r: i64)
    ensures
        r == unoff_i64(u as int),
{
    if u >= 0x8000_0000_0000_0000u64 {
        (u - 0x8000_0000_0000_0000u64) as i64
    } else {
        (u as i64) + i64::MIN
    }
}

/// The bytes of one unsigned word.
pub open spec fn enc_u64(x: u64) -> Seq<u8> {
    spec_u64_to_le_bytes(x)
}

/// The bytes of one signed word.
pub open spec fn enc_i64(v: i64) -> Seq<u8> {
    enc_u64(off_i64(v as int) as u64)
}

/// The bytes of one character.
pub open spec fn enc_char(c: char) -> Seq<u8> {
    spec_u32_to_le_bytes(c as u32)
}

/// The bytes of a character sequence, one word each.
pub open spec fn enc_chars(s: Seq<char>) -> Seq<u8>
    decreases s.len(),
{
    if s.len() == 0 {
        Seq::empty()
    } else {
        enc_chars(s.drop_last()) + enc_char(s.last())
    }
}

/// The bytes of a string: its length, then its characters.
pub open spec fn enc_str(s: Seq<char>) -> Seq<u8> {
    enc_u64(s.len() as u64) + enc_chars(s)
}

/// An unsigned word read at `off`, when eight bytes are there.
pub open spec fn dec_u64_at(b: Seq<u8>, off: int) -> Option<(u64, int)> {
    if 0 <= off && off + 8 <= b.len() {
        Some((spec_u64_from_le_bytes(b.subrange(off, off + 8)), off + 8))
    } else {
        None
    }
}

/// A character read at `off`: a word that is a Unicode scalar.
pub open spec fn dec_char_at(b: Seq<u8>, off: int) -> Option<(char, int)> {
    if 0 <= off && off + 4 <= b.len() {
        let v = spec_u32_from_le_bytes(b.subrange(off, off + 4));
        if is_scalar(v) {
            Some(((v as char), off + 4))
        } else {
            None
        }
    } else {
        None
    }
}

/// `n` characters read from `off`.
pub open spec fn dec_chars_at(b: Seq<u8>, off: int, n: nat) -> Option<(Seq<char>, int)>
    decreases n,
{
    if n == 0 {
        Some((Seq::empty(), off))
    } else {
        match dec_chars_at(b, off, (n - 1) as nat) {
            Some((s, mid)) => match dec_char_at(b, mid) {
                Some((c, end)) => Some((s.push(c), end)),
                None => None,
            },
            None => None,
        }
    }
}

/// A string read at `off`: a length, then that many characters.
pub open spec fn dec_str_at(b: Seq<u8>, off: int) -> Option<(Seq<char>, int)> {
    match dec_u64_at(b, off) {
        Some((n, mid)) => dec_chars_at(b, mid, n as nat),
        None => None,
    }
}

/// Reading a word where one was written gives it back.
pub proof fn lemma_dec_u64(b: Seq<u8>, off: int, x: u64)
    requires
        0 <= off,
        off + 8 <= b.len(),
        b.subrange(off, off + 8) == enc_u64(x),
    ensures
        dec_u64_at(b, off) == Some((x, off + 8)),
{
    lemma_auto_spec_u64_to_from_le_bytes();
}

/// Reading a character where one was written gives it back.
pub proof fn lemma_dec_char(b: Seq<u8>, off: int, c: char)
    requires
        0 <= off,
        off + 4 <= b.len(),
        b.subrange(off, off + 4) == enc_char(c),
    ensures
        dec_char_at(b, off) == Some((c, off + 4)),
{
    lemma_auto_spec_u32_to_from_le_bytes();
    char_is_scalar(c);
    assert(spec_u32_to_le_bytes(c as u32).len() == 4);
    assert(spec_u32_from_le_bytes(spec_u32_to_le_bytes(c as u32)) == c as u32);
    assert(spec_u32_from_le_bytes(b.subrange(off, off + 4)) == c as u32);
    char_u32_cast(c, c as u32);
}

/// Reading characters where a sequence was written gives it back.
pub proof fn lemma_dec_chars(b: Seq<u8>, off: int, s: Seq<char>)
    requires
        0 <= off,
        off + enc_chars(s).len() <= b.len(),
        b.subrange(off, off + enc_chars(s).len() as int) == enc_chars(s),
    ensures
        dec_chars_at(b, off, s.len()) == Some((s, off + enc_chars(s).len())),
    decreases s.len(),
{
    if s.len() == 0 {
        assert(s =~= Seq::<char>::empty());
    } else {
        let head = enc_chars(s.drop_last());
        let tail = enc_char(s.last());
        let whole = enc_chars(s);
        let tailoff = off + head.len() as int;
        lemma_auto_spec_u32_to_from_le_bytes();
        assert(tail.len() == 4);
        assert(whole == head + tail);
        assert(b.subrange(off, off + whole.len() as int) == whole);
        assert forall|i: int| 0 <= i < head.len() implies b.subrange(off, tailoff)[i] == head[i] by {
            assert(b.subrange(off, off + whole.len() as int)[i] == whole[i]);
            assert(b[off + i] == whole[i]);
        }
        assert(b.subrange(off, tailoff) =~= head);
        lemma_dec_chars(b, off, s.drop_last());
        assert forall|i: int| 0 <= i < 4 implies b.subrange(tailoff, tailoff + 4)[i] == tail[i] by {
            assert(b.subrange(off, off + whole.len() as int)[head.len() + i] == whole[head.len()
                + i]);
            assert(b[tailoff + i] == whole[head.len() + i]);
            assert(whole[head.len() + i] == tail[i]);
        }
        assert(b.subrange(tailoff, tailoff + 4) =~= tail);
        lemma_dec_char(b, tailoff, s.last());
        assert(s.drop_last().push(s.last()) =~= s);
    }
}

/// The characters of a string take four bytes each.
pub proof fn lemma_enc_chars_len(s: Seq<char>)
    ensures
        enc_chars(s).len() == 4 * s.len(),
    decreases s.len(),
{
    lemma_auto_spec_u32_to_from_le_bytes();
    if s.len() > 0 {
        lemma_enc_chars_len(s.drop_last());
        assert(enc_char(s.last()).len() == 4);
    }
}

/// Reading a string where one was written gives it back.
pub proof fn lemma_dec_str(b: Seq<u8>, off: int, s: Seq<char>)
    requires
        s.len() <= u64::MAX,
        0 <= off,
        off + enc_str(s).len() <= b.len(),
        b.subrange(off, off + enc_str(s).len() as int) == enc_str(s),
    ensures
        dec_str_at(b, off) == Some((s, off + enc_str(s).len())),
{
    lemma_auto_spec_u64_to_from_le_bytes();
    lemma_enc_chars_len(s);
    let lenpart = enc_u64(s.len() as u64);
    let charpart = enc_chars(s);
    let whole = enc_str(s);
    assert(whole == lenpart + charpart);
    assert(b.subrange(off, off + whole.len() as int) == whole);
    assert forall|i: int| 0 <= i < 8 implies b.subrange(off, off + 8)[i] == lenpart[i] by {
        assert(b.subrange(off, off + whole.len() as int)[i] == whole[i]);
        assert(b[off + i] == whole[i]);
    }
    assert(b.subrange(off, off + 8) =~= lenpart);
    lemma_dec_u64(b, off, s.len() as u64);
    assert forall|i: int| 0 <= i < charpart.len() implies b.subrange(
        off + 8,
        off + 8 + charpart.len() as int,
    )[i] == charpart[i] by {
        assert(b.subrange(off, off + whole.len() as int)[8 + i] == whole[8 + i]);
        assert(b[off + 8 + i] == whole[8 + i]);
        assert(whole[8 + i] == charpart[i]);
    }
    assert(b.subrange(off + 8, off + 8 + charpart.len() as int) =~= charpart);
    lemma_dec_chars(b, off + 8, s);
}


/// One counter sample inside a trace frame, referencing its interned id.
#[derive(Clone, Copy, Debug, PartialEq, Eq, Structural)]
pub struct TraceCounter {
    pub id: u64,
    pub value: CounterType,
}

/// The record interning one metric name into a dense id.
#[derive(Debug, PartialEq)]
pub struct TraceCounterMetadata {
    pub id: u64,
    pub name: String,
    pub doc: String,
}

/// The mathematical shape of an interning record.
#[verifier::ext_equal]
pub struct MetaView {
    pub id: u64,
    pub name: Seq<char>,
    pub doc: Seq<char>,
}

impl View for TraceCounterMetadata {
    type V = MetaView;

    /// A record is, for specification purposes, its shape.
    open spec fn view(&self) -> MetaView {
        MetaView { id: self.id, name: self.name@, doc: self.doc@ }
    }
}

impl Clone for TraceCounterMetadata {
    /// An equal copy of this record.
    fn clone(&self) -> (r: Self)
        ensures
            r == *self,
    {
        TraceCounterMetadata { id: self.id, name: self.name.clone(), doc: self.doc.clone() }
    }
}

/// One frame of a trace: the job description, an interning record, or a
/// batch of counter samples, each stamped with a microsecond timestamp.
#[derive(Debug, PartialEq)]
pub enum TraceFrame {
    Desc { ts: u64, desc: JobDesc },
    CounterMetadata { ts: u64, metadata: TraceCounterMetadata },
    Counters { ts: u64, counters: Vec<TraceCounter> },
}

/// The mathematical shape of one frame: as `TraceFrame`, with the sample
/// list as a sequence.
#[verifier::ext_equal]
pub enum FrameView {
    Desc { ts: u64, desc: crate::jobs::DescView },
    CounterMetadata { ts: u64, metadata: MetaView },
    Counters { ts: u64, counters: Seq<TraceCounter> },
}

impl View for TraceFrame {
    type V = FrameView;

    /// A frame is, for specification purposes, its shape.
    open spec fn view(&self) -> FrameView {
        match self {
            TraceFrame::Desc { ts, desc } => FrameView::Desc { ts: *ts, desc: desc@ },
            TraceFrame::CounterMetadata { ts, metadata } => FrameView::CounterMetadata {
                ts: *ts,
                metadata: metadata@,
            },
            TraceFrame::Counters { ts, counters } => FrameView::Counters {
                ts: *ts,
                counters: counters@,
            },
        }
    }
}

/// The views of a list of frames.
pub open spec fn frames_view(frames: Seq<TraceFrame>) -> Seq<FrameView> {
    frames.map_values(|f: TraceFrame| f@)
}

impl Clone for TraceFrame {
    /// A copy of this frame with the same shape.
    fn clone(&self) -> (r: Self)
        ensures
            r@ == self@,
    {
        match self {
            TraceFrame::Desc { ts, desc } => TraceFrame::Desc { ts: *ts, desc: desc.clone() },
            TraceFrame::CounterMetadata { ts, metadata } => TraceFrame::CounterMetadata {
                ts: *ts,
                metadata: metadata.clone(),
            },
            TraceFrame::Counters { ts, counters } => {
                let mut cs: Vec<TraceCounter> = Vec::new();
                let n = counters.len();
                let mut i: usize = 0;
                while i < n
                    invariant
                        n == counters@.len(),
                        0 <= i <= n,
                        cs@ =~= counters@.take(i as int),
                    decreases n - i,
                {
                    cs.push(counters[i]);
                    i = i + 1;
                }
                proof {
                    assert(counters@.take(n as int) =~= counters@);
                }
                let r = TraceFrame::Counters { ts: *ts, counters: cs };
                proof {
                    assert(r@ =~~= self@);
                }
                r
            },
        }
    }
}

/// The bytes of one counter value: a variant tag, then its fields.
pub open spec fn enc_ctype(c: CounterType) -> Seq<u8> {
    match c {
        CounterType::Counter { ts, value } => seq![1u8] + enc_u64(ts) + enc_i64(value),
        CounterType::Gauge { min, max, hits, total } => seq![2u8] + enc_i64(min) + enc_i64(max)
            + enc_u64(hits) + enc_i64(total),
    }
}

/// The bytes of one counter sample: its id, then its value.
pub open spec fn enc_tc(tc: TraceCounter) -> Seq<u8> {
    enc_u64(tc.id) + enc_ctype(tc.value)
}

/// The bytes of a list of counter samples, in order.
pub open spec fn enc_tcs(cs: Seq<TraceCounter>) -> Seq<u8>
    decreases cs.len(),
{
    if cs.len() == 0 {
        Seq::empty()
    } else {
        enc_tcs(cs.drop_last()) + enc_tc(cs.last())
    }
}

/// The bytes of an interning record.
pub open spec fn enc_meta(m: MetaView) -> Seq<u8> {
    enc_u64(m.id) + enc_str(m.name) + enc_str(m.doc)
}

/// The bytes of a job description.
pub open spec fn enc_desc(d: crate::jobs::DescView) -> Seq<u8> {
    enc_str(d.jobid) + enc_str(d.command) + enc_i64(d.size as i64) + enc_str(d.nodelist)
        + enc_str(d.partition) + enc_str(d.cluster) + enc_str(d.run_dir) + enc_u64(d.start_time)
        + enc_u64(d.end_time)
}

/// The payload bytes of one frame: a frame tag, the timestamp, the body.
pub open spec fn enc_frame(f: FrameView) -> Seq<u8> {
    match f {
        FrameView::Desc { ts, desc } => seq![1u8] + enc_u64(ts) + enc_desc(desc),
        FrameView::CounterMetadata { ts, metadata } => seq![2u8] + enc_u64(ts) + enc_meta(
            metadata,
        ),
        FrameView::Counters { ts, counters } => seq![3u8] + enc_u64(ts) + enc_u64(
            counters.len() as u64,
        ) + enc_tcs(counters),
    }
}

/// One frame as stored: its payload length as a word, then the payload.
pub open spec fn frame_bytes(f: FrameView) -> Seq<u8> {
    enc_u64(enc_frame(f).len() as u64) + enc_frame(f)
}

/// A whole trace file: its frames, length-prefixed, in order.
pub open spec fn log_bytes(frames: Seq<FrameView>) -> Seq<u8>
    decreases frames.len(),
{
    if frames.len() == 0 {
        Seq::empty()
    } else {
        frame_bytes(frames[0]) + log_bytes(frames.drop_first())
    }
}

/// The bound every variable-length field of a frame stays under; wide
/// enough for anything a machine can hold, and small enough that a whole
/// frame's size always fits its length word.
pub open spec fn field_bound() -> int {
    0x1000_0000_0000
}

/// Every string of the frame is short enough for its length prefix, and a
/// counters list is short enough for its count word.
pub open spec fn frame_wf(f: FrameView) -> bool {
    match f {
        FrameView::Desc { ts: _, desc } => desc.jobid.len() <= field_bound()
            && desc.command.len() <= field_bound() && desc.nodelist.len() <= field_bound()
            && desc.partition.len() <= field_bound() && desc.cluster.len() <= field_bound()
            && desc.run_dir.len() <= field_bound(),
        FrameView::CounterMetadata { ts: _, metadata } => metadata.name.len() <= field_bound()
            && metadata.doc.len() <= field_bound(),
        FrameView::Counters { ts: _, counters } => counters.len() <= field_bound(),
    }
}

/// A sample takes at most 41 bytes.
pub proof fn lemma_enc_tcs_len(cs: Seq<TraceCounter>)
    ensures
        enc_tcs(cs).len() <= 41 * cs.len(),
    decreases cs.len(),
{
    lemma_auto_spec_u64_to_from_le_bytes();
    if cs.len() > 0 {
        lemma_enc_tcs_len(cs.drop_last());
        assert(enc_tc(cs.last()).len() <= 41);
    }
}

/// A well-formed frame's payload always fits its length word.
pub proof fn lemma_enc_frame_len(f: FrameView)
    requires
        frame_wf(f),
    ensures
        enc_frame(f).len() <= u64::MAX,
        enc_frame(f).len() >= 1,
{
    lemma_auto_spec_u64_to_from_le_bytes();
    match f {
        FrameView::Desc { ts: _, desc } => {
            lemma_enc_chars_len(desc.jobid);
            lemma_enc_chars_len(desc.command);
            lemma_enc_chars_len(desc.nodelist);
            lemma_enc_chars_len(desc.partition);
            lemma_enc_chars_len(desc.cluster);
            lemma_enc_chars_len(desc.run_dir);
        },
        FrameView::CounterMetadata { ts: _, metadata } => {
            lemma_enc_chars_len(metadata.name);
            lemma_enc_chars_len(metadata.doc);
        },
        FrameView::Counters { ts: _, counters } => {
            lemma_enc_tcs_len(counters);
        },
    }
}

/// Every frame of the list is well formed.
pub open spec fn frames_wf(frames: Seq<FrameView>) -> bool {
    forall|i: int| 0 <= i < frames.len() ==> frame_wf(#[trigger] frames[i])
}


/// Splitting a known concatenation at its seam.
pub proof fn lemma_split_concat(b: Seq<u8>, off: int, x: Seq<u8>, y: Seq<u8>)
    requires
        0 <= off,
        off + x.len() + y.len() <= b.len(),
        b.subrange(off, off + x.len() + y.len()) == x + y,
    ensures
        b.subrange(off, off + x.len() as int) == x,
        b.subrange(off + x.len() as int, off + x.len() + y.len()) == y,
{
    let whole = x + y;
    assert forall|i: int| 0 <= i < x.len() implies b.subrange(off, off + x.len() as int)[i]
        == x[i] by {
        assert(b.subrange(off, off + whole.len() as int)[i] == whole[i]);
        assert(b[off + i] == whole[i]);
    }
    assert(b.subrange(off, off + x.len() as int) =~= x);
    assert forall|i: int| 0 <= i < y.len() implies b.subrange(
        off + x.len() as int,
        off + x.len() + y.len(),
    )[i] == y[i] by {
        assert(b.subrange(off, off + whole.len() as int)[x.len() + i] == whole[x.len() + i]);
        assert(b[off + x.len() + i] == whole[x.len() + i]);
        assert(whole[x.len() + i] == y[i]);
    }
    assert(b.subrange(off + x.len() as int, off + x.len() + y.len()) =~= y);
}

/// A signed word read at `off`.
pub open spec fn dec_i64_at(b: Seq<u8>, off: int) -> Option<(i64, int)> {
    match dec_u64_at(b, off) {
        Some((u, end)) => Some((unoff_i64(u as int) as i64, end)),
        None => None,
    }
}

/// Reading a signed word where one was written gives it back.
pub proof fn lemma_dec_i64(b: Seq<u8>, off: int, v: i64)
    requires
        0 <= off,
        off + 8 <= b.len(),
        b.subrange(off, off + 8) == enc_i64(v),
    ensures
        dec_i64_at(b, off) == Some((v, off + 8)),
{
    lemma_dec_u64(b, off, off_i64(v as int) as u64);
}

/// A counter value read at `off`: a tag byte, then the variant's fields.
pub open spec fn dec_ctype_at(b: Seq<u8>, off: int) -> Option<(CounterType, int)> {
    if 0 <= off && off < b.len() {
        if b[off] == 1u8 {
            match dec_u64_at(b, off + 1) {
                Some((ts, o1)) => match dec_i64_at(b, o1) {
                    Some((value, o2)) => Some((CounterType::Counter { ts, value }, o2)),
                    None => None,
                },
                None => None,
            }
        } else if b[off] == 2u8 {
            match dec_i64_at(b, off + 1) {
                Some((min, o1)) => match dec_i64_at(b, o1) {
                    Some((max, o2)) => match dec_u64_at(b, o2) {
                        Some((hits, o3)) => match dec_i64_at(b, o3) {
                            Some((total, o4)) => Some(
                                (CounterType::Gauge { min, max, hits, total }, o4),
                            ),
                            None => None,
                        },
                        None => None,
                    },
                    None => None,
                },
                None => None,
            }
        } else {
            None
        }
    } else {
        None
    }
}

/// Reading a counter value where one was written gives it back.
pub proof fn lemma_dec_ctype(b: Seq<u8>, off: int, c: CounterType)
    requires
        0 <= off,
        off + enc_ctype(c).len() <= b.len(),
        b.subrange(off, off + enc_ctype(c).len() as int) == enc_ctype(c),
    ensures
        dec_ctype_at(b, off) == Some((c, off + enc_ctype(c).len())),
{
    lemma_auto_spec_u64_to_from_le_bytes();
    let whole = enc_ctype(c);
    assert(b[off] == whole[0]);
    match c {
        CounterType::Counter { ts, value } => {
            assert(whole == seq![1u8] + (enc_u64(ts) + enc_i64(value)));
            lemma_split_concat(b, off, seq![1u8], enc_u64(ts) + enc_i64(value));
            lemma_split_concat(b, off + 1, enc_u64(ts), enc_i64(value));
            lemma_dec_u64(b, off + 1, ts);
            lemma_dec_i64(b, off + 9, value);
        },
        CounterType::Gauge { min, max, hits, total } => {
            assert(whole == seq![2u8] + (enc_i64(min) + (enc_i64(max) + (enc_u64(hits) + enc_i64(
                total,
            )))));
            lemma_split_concat(
                b,
                off,
                seq![2u8],
                enc_i64(min) + (enc_i64(max) + (enc_u64(hits) + enc_i64(total))),
            );
            lemma_split_concat(
                b,
                off + 1,
                enc_i64(min),
                enc_i64(max) + (enc_u64(hits) + enc_i64(total)),
            );
            lemma_split_concat(b, off + 9, enc_i64(max), enc_u64(hits) + enc_i64(total));
            lemma_split_concat(b, off + 17, enc_u64(hits), enc_i64(total));
            lemma_dec_i64(b, off + 1, min);
            lemma_dec_i64(b, off + 9, max);
            lemma_dec_u64(b, off + 17, hits);
            lemma_dec_i64(b, off + 25, total);
        },
    }
}

/// One counter sample read at `off`: its id, then its value.
pub open spec fn dec_tc_at(b: Seq<u8>, off: int) -> Option<(TraceCounter, int)> {
    match dec_u64_at(b, off) {
        Some((id, o1)) => match dec_ctype_at(b, o1) {
            Some((value, o2)) => Some((TraceCounter { id, value }, o2)),
            None => None,
        },
        None => None,
    }
}

/// Reading a sample where one was written gives it back.
pub proof fn lemma_dec_tc(b: Seq<u8>, off: int, tc: TraceCounter)
    requires
        0 <= off,
        off + enc_tc(tc).len() <= b.len(),
        b.subrange(off, off + enc_tc(tc).len() as int) == enc_tc(tc),
    ensures
        dec_tc_at(b, off) == Some((tc, off + enc_tc(tc).len())),
{
    lemma_auto_spec_u64_to_from_le_bytes();
    lemma_split_concat(b, off, enc_u64(tc.id), enc_ctype(tc.value));
    lemma_dec_u64(b, off, tc.id);
    lemma_dec_ctype(b, off + 8, tc.value);
}

/// `n` samples read from `off`.
pub open spec fn dec_tcs_at(b: Seq<u8>, off: int, n: nat) -> Option<(Seq<TraceCounter>, int)>
    decreases n,
{
    if n == 0 {
        Some((Seq::empty(), off))
    } else {
        match dec_tcs_at(b, off, (n - 1) as nat) {
            Some((cs, mid)) => match dec_tc_at(b, mid) {
                Some((tc, end)) => Some((cs.push(tc), end)),
                None => None,
            },
            None => None,
        }
    }
}

/// Reading samples where a list was written gives it back.
pub proof fn lemma_dec_tcs(b: Seq<u8>, off: int, cs: Seq<TraceCounter>)
    requires
        0 <= off,
        off + enc_tcs(cs).len() <= b.len(),
        b.subrange(off, off + enc_tcs(cs).len() as int) == enc_tcs(cs),
    ensures
        dec_tcs_at(b, off, cs.len()) == Some((cs, off + enc_tcs(cs).len())),
    decreases cs.len(),
{
    if cs.len() == 0 {
        assert(cs =~= Seq::<TraceCounter>::empty());
    } else {
        let head = enc_tcs(cs.drop_last());
        let tail = enc_tc(cs.last());
        assert(enc_tcs(cs) == head + tail);
        lemma_split_concat(b, off, head, tail);
        lemma_dec_tcs(b, off, cs.drop_last());
        lemma_dec_tc(b, off + head.len() as int, cs.last());
        assert(cs.drop_last().push(cs.last()) =~= cs);
    }
}


/// An interning record read at `off`.
pub open spec fn dec_meta_at(b: Seq<u8>, off: int) -> Option<(MetaView, int)> {
    match dec_u64_at(b, off) {
        Some((id, o1)) => match dec_str_at(b, o1) {
            Some((name, o2)) => match dec_str_at(b, o2) {
                Some((doc, o3)) => Some((MetaView { id, name, doc }, o3)),
                None => None,
            },
            None => None,
        },
        None => None,
    }
}

/// Reading a record where one was written gives it back.
pub proof fn lemma_dec_meta(b: Seq<u8>, off: int, m: MetaView)
    requires
        m.name.len() <= u64::MAX,
        m.doc.len() <= u64::MAX,
        0 <= off,
        off + enc_meta(m).len() <= b.len(),
        b.subrange(off, off + enc_meta(m).len() as int) == enc_meta(m),
    ensures
        dec_meta_at(b, off) == Some((m, off + enc_meta(m).len())),
{
    lemma_auto_spec_u64_to_from_le_bytes();
    lemma_enc_chars_len(m.name);
    lemma_enc_chars_len(m.doc);
    assert(enc_meta(m) == enc_u64(m.id) + (enc_str(m.name) + enc_str(m.doc)));
    lemma_split_concat(b, off, enc_u64(m.id), enc_str(m.name) + enc_str(m.doc));
    lemma_split_concat(b, off + 8, enc_str(m.name), enc_str(m.doc));
    lemma_dec_u64(b, off, m.id);
    lemma_dec_str(b, off + 8, m.name);
    lemma_dec_str(b, off + 8 + enc_str(m.name).len() as int, m.doc);
    assert(dec_meta_at(b, off)->0 =~= (m, off + enc_meta(m).len() as int));
}

/// A job description read at `off`.
pub open spec fn dec_desc_at(b: Seq<u8>, off: int) -> Option<(crate::jobs::DescView, int)> {
    match dec_str_at(b, off) {
        Some((jobid, o1)) => match dec_str_at(b, o1) {
            Some((command, o2)) => match dec_i64_at(b, o2) {
                Some((size, o3)) => if i32::MIN <= size <= i32::MAX {
                    match dec_str_at(b, o3) {
                        Some((nodelist, o4)) => match dec_str_at(b, o4) {
                            Some((partition, o5)) => match dec_str_at(b, o5) {
                                Some((cluster, o6)) => match dec_str_at(b, o6) {
                                    Some((run_dir, o7)) => match dec_u64_at(b, o7) {
                                        Some((start_time, o8)) => match dec_u64_at(b, o8) {
                                            Some((end_time, o9)) => Some(
                                                (
                                                    crate::jobs::DescView {
                                                        jobid,
                                                        command,
                                                        size: size as i32,
                                                        nodelist,
                                                        partition,
                                                        cluster,
                                                        run_dir,
                                                        start_time,
                                                        end_time,
                                                    },
                                                    o9,
                                                ),
                                            ),
                                            None => None,
                                        },
                                        None => None,
                                    },
                                    None => None,
                                },
                                None => None,
                            },
                            None => None,
                        },
                        None => None,
                    }
                } else {
                    None
                },
                None => None,
            },
            None => None,
        },
        None => None,
    }
}

/// Reading a description where one was written gives it back.
pub proof fn lemma_dec_desc(b: Seq<u8>, off: int, d: crate::jobs::DescView)
    requires
        d.jobid.len() <= u64::MAX,
        d.command.len() <= u64::MAX,
        d.nodelist.len() <= u64::MAX,
        d.partition.len() <= u64::MAX,
        d.cluster.len() <= u64::MAX,
        d.run_dir.len() <= u64::MAX,
        0 <= off,
        off + enc_desc(d).len() <= b.len(),
        b.subrange(off, off + enc_desc(d).len() as int) == enc_desc(d),
    ensures
        dec_desc_at(b, off) == Some((d, off + enc_desc(d).len())),
{
    lemma_auto_spec_u64_to_from_le_bytes();
    lemma_enc_chars_len(d.jobid);
    lemma_enc_chars_len(d.command);
    lemma_enc_chars_len(d.nodelist);
    lemma_enc_chars_len(d.partition);
    lemma_enc_chars_len(d.cluster);
    lemma_enc_chars_len(d.run_dir);
    let p1 = enc_str(d.jobid);
    let p2 = enc_str(d.command);
    let p3 = enc_i64(d.size as i64);
    let p4 = enc_str(d.nodelist);
    let p5 = enc_str(d.partition);
    let p6 = enc_str(d.cluster);
    let p7 = enc_str(d.run_dir);
    let p8 = enc_u64(d.start_time);
    let p9 = enc_u64(d.end_time);
    assert(enc_desc(d) == p1 + (p2 + (p3 + (p4 + (p5 + (p6 + (p7 + (p8 + p9))))))));
    let o1 = off + p1.len() as int;
    let o2 = o1 + p2.len() as int;
    let o3 = o2 + p3.len() as int;
    let o4 = o3 + p4.len() as int;
    let o5 = o4 + p5.len() as int;
    let o6 = o5 + p6.len() as int;
    let o7 = o6 + p7.len() as int;
    let o8 = o7 + p8.len() as int;
    lemma_split_concat(b, off, p1, p2 + (p3 + (p4 + (p5 + (p6 + (p7 + (p8 + p9)))))));
    lemma_split_concat(b, o1, p2, p3 + (p4 + (p5 + (p6 + (p7 + (p8 + p9))))));
    lemma_split_concat(b, o2, p3, p4 + (p5 + (p6 + (p7 + (p8 + p9)))));
    lemma_split_concat(b, o3, p4, p5 + (p6 + (p7 + (p8 + p9))));
    lemma_split_concat(b, o4, p5, p6 + (p7 + (p8 + p9)));
    lemma_split_concat(b, o5, p6, p7 + (p8 + p9));
    lemma_split_concat(b, o6, p7, p8 + p9);
    lemma_split_concat(b, o7, p8, p9);
    lemma_dec_str(b, off, d.jobid);
    lemma_dec_str(b, o1, d.command);
    lemma_dec_i64(b, o2, d.size as i64);
    lemma_dec_str(b, o3, d.nodelist);
    lemma_dec_str(b, o4, d.partition);
    lemma_dec_str(b, o5, d.cluster);
    lemma_dec_str(b, o6, d.run_dir);
    lemma_dec_u64(b, o7, d.start_time);
    lemma_dec_u64(b, o8, d.end_time);
    assert(dec_desc_at(b, off)->0 =~= (d, off + enc_desc(d).len() as int));
}

/// A frame payload read at `off`: a frame tag, the timestamp, the body.
pub open spec fn dec_frame_at(b: Seq<u8>, off: int) -> Option<(FrameView, int)> {
    if 0 <= off && off < b.len() {
        if b[off] == 1u8 {
            match dec_u64_at(b, off + 1) {
                Some((ts, o1)) => match dec_desc_at(b, o1) {
                    Some((desc, o2)) => Some((FrameView::Desc { ts, desc }, o2)),
                    None => None,
                },
                None => None,
            }
        } else if b[off] == 2u8 {
            match dec_u64_at(b, off + 1) {
                Some((ts, o1)) => match dec_meta_at(b, o1) {
                    Some((metadata, o2)) => Some((FrameView::CounterMetadata { ts, metadata }, o2)),
                    None => None,
                },
                None => None,
            }
        } else if b[off] == 3u8 {
            match dec_u64_at(b, off + 1) {
                Some((ts, o1)) => match dec_u64_at(b, o1) {
                    Some((n, o2)) => match dec_tcs_at(b, o2, n as nat) {
                        Some((counters, o3)) => Some((FrameView::Counters { ts, counters }, o3)),
                        None => None,
                    },
                    None => None,
                },
                None => None,
            }
        } else {
            None
        }
    } else {
        None
    }
}

/// Reading a payload where one was written gives it back.
pub proof fn lemma_dec_frame(b: Seq<u8>, off: int, f: FrameView)
    requires
        frame_wf(f),
        0 <= off,
        off + enc_frame(f).len() <= b.len(),
        b.subrange(off, off + enc_frame(f).len() as int) == enc_frame(f),
    ensures
        dec_frame_at(b, off) == Some((f, off + enc_frame(f).len())),
{
    lemma_auto_spec_u64_to_from_le_bytes();
    let whole = enc_frame(f);
    assert(b[off] == whole[0]);
    match f {
        FrameView::Desc { ts, desc } => {
            assert(whole == seq![1u8] + (enc_u64(ts) + enc_desc(desc)));
            lemma_split_concat(b, off, seq![1u8], enc_u64(ts) + enc_desc(desc));
            lemma_split_concat(b, off + 1, enc_u64(ts), enc_desc(desc));
            lemma_dec_u64(b, off + 1, ts);
            lemma_dec_desc(b, off + 9, desc);
        },
        FrameView::CounterMetadata { ts, metadata } => {
            assert(whole == seq![2u8] + (enc_u64(ts) + enc_meta(metadata)));
            lemma_split_concat(b, off, seq![2u8], enc_u64(ts) + enc_meta(metadata));
            lemma_split_concat(b, off + 1, enc_u64(ts), enc_meta(metadata));
            lemma_dec_u64(b, off + 1, ts);
            lemma_dec_meta(b, off + 9, metadata);
        },
        FrameView::Counters { ts, counters } => {
            assert(whole == seq![3u8] + (enc_u64(ts) + (enc_u64(counters.len() as u64) + enc_tcs(
                counters,
            ))));
            lemma_split_concat(
                b,
                off,
                seq![3u8],
                enc_u64(ts) + (enc_u64(counters.len() as u64) + enc_tcs(counters)),
            );
            lemma_split_concat(
                b,
                off + 1,
                enc_u64(ts),
                enc_u64(counters.len() as u64) + enc_tcs(counters),
            );
            lemma_split_concat(b, off + 9, enc_u64(counters.len() as u64), enc_tcs(counters));
            lemma_dec_u64(b, off + 1, ts);
            lemma_dec_u64(b, off + 9, counters.len() as u64);
            lemma_dec_tcs(b, off + 17, counters);
        },
    }
}

/// A length-prefixed frame read at `off`: the payload must fill its length
/// word exactly.
pub open spec fn dec_framed_at(b: Seq<u8>, off: int) -> Option<(FrameView, int)> {
    match dec_u64_at(b, off) {
        Some((len, mid)) => match dec_frame_at(b, mid) {
            Some((f, end)) => if end - mid == len {
                Some((f, end))
            } else {
                None
            },
            None => None,
        },
        None => None,
    }
}

/// Reading a stored frame where one was written gives it back.
pub proof fn lemma_dec_framed(b: Seq<u8>, off: int, f: FrameView)
    requires
        frame_wf(f),
        0 <= off,
        off + frame_bytes(f).len() <= b.len(),
        b.subrange(off, off + frame_bytes(f).len() as int) == frame_bytes(f),
    ensures
        dec_framed_at(b, off) == Some((f, off + frame_bytes(f).len())),
{
    lemma_auto_spec_u64_to_from_le_bytes();
    lemma_enc_frame_len(f);
    assert(frame_bytes(f) == enc_u64(enc_frame(f).len() as u64) + enc_frame(f));
    lemma_split_concat(b, off, enc_u64(enc_frame(f).len() as u64), enc_frame(f));
    lemma_dec_u64(b, off, enc_frame(f).len() as u64);
    lemma_dec_frame(b, off + 8, f);
}

/// The whole remainder of the file read as frames.
pub open spec fn dec_log_at(b: Seq<u8>, off: int) -> Option<Seq<FrameView>>
    decreases b.len() - off,
    when 0 <= off <= b.len()
{
    if off == b.len() {
        Some(Seq::empty())
    } else {
        match dec_framed_at(b, off) {
            Some((f, end)) => if off < end <= b.len() {
                match dec_log_at(b, end) {
                    Some(rest) => Some(seq![f] + rest),
                    None => None,
                }
            } else {
                None
            },
            None => None,
        }
    }
}

/// The stored frame sizes are positive, so every frame makes progress.
pub proof fn lemma_frame_bytes_len(f: FrameView)
    ensures
        frame_bytes(f).len() > 8,
        enc_frame(f).len() >= 1,
{
    lemma_auto_spec_u64_to_from_le_bytes();
    match f {
        FrameView::Desc { ts, desc } => {},
        FrameView::CounterMetadata { ts, metadata } => {},
        FrameView::Counters { ts, counters } => {},
    }
}

/// Reading a file that holds exactly an encoded frame list gives the list
/// back.
pub proof fn lemma_dec_log(b: Seq<u8>, off: int, frames: Seq<FrameView>)
    requires
        frames_wf(frames),
        0 <= off,
        off + log_bytes(frames).len() == b.len(),
        b.subrange(off, off + log_bytes(frames).len() as int) == log_bytes(frames),
    ensures
        dec_log_at(b, off) == Some(frames),
    decreases frames.len(),
{
    lemma_auto_spec_u64_to_from_le_bytes();
    if frames.len() == 0 {
        assert(frames =~= Seq::<FrameView>::empty());
    } else {
        let head = frame_bytes(frames[0]);
        let rest = log_bytes(frames.drop_first());
        assert(log_bytes(frames) == head + rest);
        lemma_split_concat(b, off, head, rest);
        lemma_frame_bytes_len(frames[0]);
        assert(frame_wf(frames[0]));
        lemma_dec_framed(b, off, frames[0]);
        assert(forall|i: int|
            0 <= i < frames.drop_first().len() ==> #[trigger] frames.drop_first()[i] == frames[i
                + 1]);
        lemma_dec_log(b, off + head.len() as int, frames.drop_first());
        assert(seq![frames[0]] + frames.drop_first() =~= frames);
    }
}

/// Append one unsigned word.
pub fn write_u64(out: &mut Vec<u8>, x: u64)
    ensures
        final(out)@ == old(out)@ + enc_u64(x),
{
    let mut bytes = u64_to_le_bytes(x);
    out.append(&mut bytes);
}

/// Append one signed word.
pub fn write_i64(out: &mut Vec<u8>, v: i64)
    ensures
        final(out)@ == old(out)@ + enc_i64(v),
{
    let u = off_i64_exec(v);
    write_u64(out, u);
}

/// Append one string: length, then characters.
pub fn write_str(out: &mut Vec<u8>, s: &str)
    ensures
        final(out)@ == old(out)@ + enc_str(s@),
{
    let n = s.unicode_len();
    write_u64(out, n as u64);
    let mut i: usize = 0;
    while i < n
        invariant
            n == s@.len(),
            0 <= i <= n,
            out@ == old(out)@ + enc_u64(n as u64) + enc_chars(s@.take(i as int)),
        decreases n - i,
    {
        let c = s.get_char(i);
        let mut bytes = u32_to_le_bytes(c as u32);
        out.append(&mut bytes);
        proof {
            let t1 = s@.take(i + 1 as int);
            assert(t1.drop_last() =~= s@.take(i as int));
            assert(t1.last() == s@[i as int]);
            assert(out@ =~= old(out)@ + enc_u64(n as u64) + enc_chars(t1));
        }
        i = i + 1;
    }
    proof {
        assert(s@.take(n as int) =~= s@);
        assert(out@ =~= old(out)@ + enc_str(s@));
    }
}

/// Read one unsigned word.
pub fn read_u64(b: &Vec<u8>, off: usize) -> (r: Option<(u64, usize)>)
    ensures
        match r {
            Some((x, end)) => dec_u64_at(b@, off as int) == Some((x, end as int)) && end
                <= b@.len(),
            None => dec_u64_at(b@, off as int) is None,
        },
{
    if off <= b.len() && b.len() - off >= 8 {
        let s = b.as_slice();
        let word = slice_range(s, off, off + 8);
        let x = u64_from_le_bytes(word);
        Some((x, off + 8))
    } else {
        None
    }
}

/// Read one character.
pub fn read_char(b: &Vec<u8>, off: usize) -> (r: Option<(char, usize)>)
    ensures
        match r {
            Some((c, end)) => dec_char_at(b@, off as int) == Some((c, end as int)) && end
                <= b@.len(),
            None => dec_char_at(b@, off as int) is None,
        },
{
    if off <= b.len() && b.len() - off >= 4 {
        let s = b.as_slice();
        let word = slice_range(s, off, off + 4);
        let v = u32_from_le_bytes(word);
        match char_from_u32(v) {
            Some(c) => {
                proof {
                    char_is_scalar(c);
                    char_u32_cast(c, v);
                }
                Some((c, off + 4))
            },
            None => None,
        }
    } else {
        None
    }
}

/// Read a string: length, then characters.
pub fn read_str(b: &Vec<u8>, off: usize) -> (r: Option<(String, usize)>)
    ensures
        match r {
            Some((s, end)) => dec_str_at(b@, off as int) == Some((s@, end as int)) && off < end
                <= b@.len(),
            None => dec_str_at(b@, off as int) is None,
        },
{
    let (n, mut cur) = match read_u64(b, off) {
        Some(v) => v,
        None => {
            return None;
        },
    };
    let mut s = String::new();
    let mut k: u64 = 0;
    while k < n
        invariant
            0 <= k <= n,
            off < cur <= b@.len(),
            dec_chars_at(b@, (dec_u64_at(b@, off as int)->0).1, k as nat) == Some((
                s@,
                cur as int,
            )),
            dec_u64_at(b@, off as int) == Some((n, (dec_u64_at(b@, off as int)->0).1)),
        decreases n - k,
    {
        match read_char(b, cur) {
            Some((c, end)) => {
                push_char(&mut s, c);
                proof {
                    assert(s@ =~= (dec_chars_at(
                        b@,
                        (dec_u64_at(b@, off as int)->0).1,
                        k as nat,
                    )->0).0.push(c));
                }
                cur = end;
            },
            None => {
                proof {
                    lemma_dec_chars_at_extend_fail(
                        b@,
                        (dec_u64_at(b@, off as int)->0).1,
                        k as nat,
                        n as nat,
                        cur as int,
                    );
                }
                return None;
            },
        }
        k = k + 1;
    }
    Some((s, cur))
}

/// When a character fails to parse after `k` good ones, no count of `n > k`
/// characters parses either.
proof fn lemma_dec_chars_at_extend_fail(b: Seq<u8>, off: int, k: nat, n: nat, cur: int)
    requires
        k < n,
        dec_chars_at(b, off, k) is Some,
        (dec_chars_at(b, off, k)->0).1 == cur,
        dec_char_at(b, cur) is None,
    ensures
        dec_chars_at(b, off, n) is None,
    decreases n,
{
    if n == k + 1 {
        assert(dec_chars_at(b, off, n) is None);
    } else {
        lemma_dec_chars_at_extend_fail(b, off, k, (n - 1) as nat, cur);
    }
}

/// Relies on std's `String::push`: appends exactly one character.
#[verifier::external_body]
pub(crate) fn push_char(s: &mut String, c: char)
    ensures
        final(s)@ == old(s)@ + seq![c],
{
    s.push(c);
}

/// Relies on std's `char::from_u32`: every Unicode scalar value converts to
/// its character, and the result always casts back to the argument.
#[verifier::external_body]
fn char_from_u32(v: u32) -> (r: Option<char>)
    ensures
        r is Some ==> (r->0 as u32) == v,
        is_scalar(v) ==> r is Some,
{
    char::from_u32(v)
}

/// The elements from `from` to `to`, through std's range indexing, which
/// vstd specifies.
fn slice_range<'a>(s: &'a [u8], from: usize, to: usize) -> (r: &'a [u8])
    requires
        from <= to <= s@.len(),
    ensures
        r@ == s@.subrange(from as int, to as int),
{
    &s[from..to]
}


/// Append one counter value.
pub fn write_ctype(out: &mut Vec<u8>, c: &CounterType)
    ensures
        final(out)@ == old(out)@ + enc_ctype(*c),
{
    match c {
        CounterType::Counter { ts, value } => {
            out.push(1u8);
            write_u64(out, *ts);
            write_i64(out, *value);
            proof {
                assert(out@ =~= old(out)@ + enc_ctype(*c));
            }
        },
        CounterType::Gauge { min, max, hits, total } => {
            out.push(2u8);
            write_i64(out, *min);
            write_i64(out, *max);
            write_u64(out, *hits);
            write_i64(out, *total);
            proof {
                assert(out@ =~= old(out)@ + enc_ctype(*c));
            }
        },
    }
}

/// Append one counter sample.
pub fn write_tc(out: &mut Vec<u8>, tc: &TraceCounter)
    ensures
        final(out)@ == old(out)@ + enc_tc(*tc),
{
    write_u64(out, tc.id);
    write_ctype(out, &tc.value);
    proof {
        assert(out@ =~= old(out)@ + enc_tc(*tc));
    }
}

/// Append one interning record.
pub fn write_meta(out: &mut Vec<u8>, m: &TraceCounterMetadata)
    ensures
        final(out)@ == old(out)@ + enc_meta(m@),
{
    write_u64(out, m.id);
    write_str(out, m.name.as_str());
    write_str(out, m.doc.as_str());
    proof {
        assert(out@ =~= old(out)@ + enc_meta(m@));
    }
}

/// Append one job description.
pub fn write_desc(out: &mut Vec<u8>, d: &JobDesc)
    ensures
        final(out)@ == old(out)@ + enc_desc(d@),
{
    write_str(out, d.jobid.as_str());
    write_str(out, d.command.as_str());
    write_i64(out, d.size as i64);
    write_str(out, d.nodelist.as_str());
    write_str(out, d.partition.as_str());
    write_str(out, d.cluster.as_str());
    write_str(out, d.run_dir.as_str());
    write_u64(out, d.start_time);
    write_u64(out, d.end_time);
    proof {
        assert(out@ =~= old(out)@ + enc_desc(d@));
    }
}

/// The payload bytes of one frame.
pub fn encode_frame(f: &TraceFrame) -> (r: Vec<u8>)
    ensures
        r@ == enc_frame(f@),
{
    let mut out: Vec<u8> = Vec::new();
    match f {
        TraceFrame::Desc { ts, desc } => {
            out.push(1u8);
            write_u64(&mut out, *ts);
            write_desc(&mut out, desc);
            proof {
                assert(out@ =~= enc_frame(f@));
            }
        },
        TraceFrame::CounterMetadata { ts, metadata } => {
            out.push(2u8);
            write_u64(&mut out, *ts);
            write_meta(&mut out, metadata);
            proof {
                assert(out@ =~= enc_frame(f@));
            }
        },
        TraceFrame::Counters { ts, counters } => {
            out.push(3u8);
            write_u64(&mut out, *ts);
            write_u64(&mut out, counters.len() as u64);
            let n = counters.len();
            let ghost header = out@;
            let mut i: usize = 0;
            while i < n
                invariant
                    n == counters@.len(),
                    0 <= i <= n,
                    out@ == header + enc_tcs(counters@.take(i as int)),
                decreases n - i,
            {
                write_tc(&mut out, &counters[i]);
                proof {
                    let t1 = counters@.take(i + 1 as int);
                    assert(t1.drop_last() =~= counters@.take(i as int));
                    assert(t1.last() == counters@[i as int]);
                    assert(out@ =~= header + enc_tcs(t1));
                }
                i = i + 1;
            }
            proof {
                assert(counters@.take(n as int) =~= counters@);
                assert(out@ =~= enc_frame(f@));
            }
        },
    }
    out
}

/// One frame as stored: its payload length as a word, then the payload.
pub fn frame_to_bytes(f: &TraceFrame) -> (r: Vec<u8>)
    requires
        frame_wf(f@),
    ensures
        r@ == frame_bytes(f@),
{
    let mut payload = encode_frame(f);
    proof {
        lemma_enc_frame_len(f@);
    }
    let mut out: Vec<u8> = Vec::new();
    write_u64(&mut out, payload.len() as u64);
    out.append(&mut payload);
    proof {
        assert(out@ =~= frame_bytes(f@));
    }
    out
}

/// Read one signed word.
pub fn read_i64(b: &Vec<u8>, off: usize) -> (r: Option<(i64, usize)>)
    ensures
        match r {
            Some((v, end)) => dec_i64_at(b@, off as int) == Some((v, end as int)) && end
                <= b@.len(),
            None => dec_i64_at(b@, off as int) is None,
        },
{
    match read_u64(b, off) {
        Some((u, end)) => Some((unoff_i64_exec(u), end)),
        None => None,
    }
}

/// Read one counter value.
pub fn read_ctype(b: &Vec<u8>, off: usize) -> (r: Option<(CounterType, usize)>)
    ensures
        match r {
            Some((c, end)) => dec_ctype_at(b@, off as int) == Some((c, end as int)) && off < end
                <= b@.len(),
            None => dec_ctype_at(b@, off as int) is None,
        },
{
    if off >= b.len() {
        return None;
    }
    let tag = b[off];
    if tag == 1 {
        let (ts, o1) = match read_u64(b, off + 1) {
            Some(v) => v,
            None => {
                return None;
            },
        };
        let (value, o2) = match read_i64(b, o1) {
            Some(v) => v,
            None => {
                return None;
            },
        };
        Some((CounterType::Counter { ts, value }, o2))
    } else if tag == 2 {
        let (min, o1) = match read_i64(b, off + 1) {
            Some(v) => v,
            None => {
                return None;
            },
        };
        let (max, o2) = match read_i64(b, o1) {
            Some(v) => v,
            None => {
                return None;
            },
        };
        let (hits, o3) = match read_u64(b, o2) {
            Some(v) => v,
            None => {
                return None;
            },
        };
        let (total, o4) = match read_i64(b, o3) {
            Some(v) => v,
            None => {
                return None;
            },
        };
        Some((CounterType::Gauge { min, max, hits, total }, o4))
    } else {
        None
    }
}

/// Read one counter sample.
pub fn read_tc(b: &Vec<u8>, off: usize) -> (r: Option<(TraceCounter, usize)>)
    ensures
        match r {
            Some((tc, end)) => dec_tc_at(b@, off as int) == Some((tc, end as int)) && off < end
                <= b@.len(),
            None => dec_tc_at(b@, off as int) is None,
        },
{
    let (id, o1) = match read_u64(b, off) {
        Some(v) => v,
        None => {
            return None;
        },
    };
    let (value, o2) = match read_ctype(b, o1) {
        Some(v) => v,
        None => {
            return None;
        },
    };
    Some((TraceCounter { id, value }, o2))
}

/// When a sample fails to parse after `k` good ones, no count of `n > k`
/// samples parses either.
proof fn lemma_dec_tcs_at_extend_fail(b: Seq<u8>, off: int, k: nat, n: nat, cur: int)
    requires
        k < n,
        dec_tcs_at(b, off, k) is Some,
        (dec_tcs_at(b, off, k)->0).1 == cur,
        dec_tc_at(b, cur) is None,
    ensures
        dec_tcs_at(b, off, n) is None,
    decreases n,
{
    if n == k + 1 {
        assert(dec_tcs_at(b, off, n) is None);
    } else {
        lemma_dec_tcs_at_extend_fail(b, off, k, (n - 1) as nat, cur);
    }
}

/// Read `n` counter samples.
pub fn read_tcs(b: &Vec<u8>, off: usize, n: u64) -> (r: Option<(Vec<TraceCounter>, usize)>)
    requires
        off <= b@.len(),
    ensures
        match r {
            Some((cs, end)) => dec_tcs_at(b@, off as int, n as nat) == Some((cs@, end as int))
                && off <= end <= b@.len(),
            None => dec_tcs_at(b@, off as int, n as nat) is None,
        },
{
    let mut cs: Vec<TraceCounter> = Vec::new();
    let mut cur = off;
    let mut k: u64 = 0;
    while k < n
        invariant
            0 <= k <= n,
            off <= cur <= b@.len(),
            dec_tcs_at(b@, off as int, k as nat) == Some((cs@, cur as int)),
        decreases n - k,
    {
        match read_tc(b, cur) {
            Some((tc, end)) => {
                cs.push(tc);
                proof {
                    assert(cs@ =~= (dec_tcs_at(b@, off as int, k as nat)->0).0.push(tc));
                }
                cur = end;
            },
            None => {
                proof {
                    lemma_dec_tcs_at_extend_fail(b@, off as int, k as nat, n as nat, cur as int);
                }
                return None;
            },
        }
        k = k + 1;
    }
    Some((cs, cur))
}

/// Read one interning record.
pub fn read_meta(b: &Vec<u8>, off: usize) -> (r: Option<(TraceCounterMetadata, usize)>)
    ensures
        match r {
            Some((m, end)) => dec_meta_at(b@, off as int) == Some((m@, end as int)) && off < end
                <= b@.len(),
            None => dec_meta_at(b@, off as int) is None,
        },
{
    let (id, o1) = match read_u64(b, off) {
        Some(v) => v,
        None => {
            return None;
        },
    };
    let (name, o2) = match read_str(b, o1) {
        Some(v) => v,
        None => {
            return None;
        },
    };
    let (doc, o3) = match read_str(b, o2) {
        Some(v) => v,
        None => {
            return None;
        },
    };
    let m = TraceCounterMetadata { id, name, doc };
    proof {
        assert((dec_meta_at(b@, off as int)->0).0 =~~= m@);
    }
    Some((m, o3))
}

/// Read one job description.
pub fn read_desc(b: &Vec<u8>, off: usize) -> (r: Option<(JobDesc, usize)>)
    ensures
        match r {
            Some((d, end)) => dec_desc_at(b@, off as int) == Some((d@, end as int)) && off < end
                <= b@.len(),
            None => dec_desc_at(b@, off as int) is None,
        },
{
    let (jobid, o1) = match read_str(b, off) {
        Some(v) => v,
        None => {
            return None;
        },
    };
    let (command, o2) = match read_str(b, o1) {
        Some(v) => v,
        None => {
            return None;
        },
    };
    let (size, o3) = match read_i64(b, o2) {
        Some(v) => v,
        None => {
            return None;
        },
    };
    if size < i32::MIN as i64 || size > i32::MAX as i64 {
        return None;
    }
    let (nodelist, o4) = match read_str(b, o3) {
        Some(v) => v,
        None => {
            return None;
        },
    };
    let (partition, o5) = match read_str(b, o4) {
        Some(v) => v,
        None => {
            return None;
        },
    };
    let (cluster, o6) = match read_str(b, o5) {
        Some(v) => v,
        None => {
            return None;
        },
    };
    let (run_dir, o7) = match read_str(b, o6) {
        Some(v) => v,
        None => {
            return None;
        },
    };
    let (start_time, o8) = match read_u64(b, o7) {
        Some(v) => v,
        None => {
            return None;
        },
    };
    let (end_time, o9) = match read_u64(b, o8) {
        Some(v) => v,
        None => {
            return None;
        },
    };
    let d = JobDesc {
        jobid,
        command,
        size: size as i32,
        nodelist,
        partition,
        cluster,
        run_dir,
        start_time,
        end_time,
    };
    proof {
        assert((dec_desc_at(b@, off as int)->0).0 =~~= d@);
    }
    Some((d, o9))
}

/// Read one frame payload.
pub fn read_frame(b: &Vec<u8>, off: usize) -> (r: Option<(TraceFrame, usize)>)
    ensures
        match r {
            Some((f, end)) => dec_frame_at(b@, off as int) == Some((f@, end as int)) && off < end
                <= b@.len(),
            None => dec_frame_at(b@, off as int) is None,
        },
{
    if off >= b.len() {
        return None;
    }
    let tag = b[off];
    if tag == 1 {
        let (ts, o1) = match read_u64(b, off + 1) {
            Some(v) => v,
            None => {
                return None;
            },
        };
        let (desc, o2) = match read_desc(b, o1) {
            Some(v) => v,
            None => {
                return None;
            },
        };
        Some((TraceFrame::Desc { ts, desc }, o2))
    } else if tag == 2 {
        let (ts, o1) = match read_u64(b, off + 1) {
            Some(v) => v,
            None => {
                return None;
            },
        };
        let (metadata, o2) = match read_meta(b, o1) {
            Some(v) => v,
            None => {
                return None;
            },
        };
        Some((TraceFrame::CounterMetadata { ts, metadata }, o2))
    } else if tag == 3 {
        let (ts, o1) = match read_u64(b, off + 1) {
            Some(v) => v,
            None => {
                return None;
            },
        };
        let (n, o2) = match read_u64(b, o1) {
            Some(v) => v,
            None => {
                return None;
            },
        };
        let (counters, o3) = match read_tcs(b, o2, n) {
            Some(v) => v,
            None => {
                return None;
            },
        };
        Some((TraceFrame::Counters { ts, counters }, o3))
    } else {
        None
    }
}

/// Read one stored frame: its length word, then a payload that fills it.
pub fn read_framed(b: &Vec<u8>, off: usize) -> (r: Option<(TraceFrame, usize)>)
    ensures
        match r {
            Some((f, end)) => dec_framed_at(b@, off as int) == Some((f@, end as int)) && off < end
                <= b@.len(),
            None => dec_framed_at(b@, off as int) is None,
        },
{
    let (len, mid) = match read_u64(b, off) {
        Some(v) => v,
        None => {
            return None;
        },
    };
    let (f, end) = match read_frame(b, mid) {
        Some(v) => v,
        None => {
            return None;
        },
    };
    if (end - mid) as u64 == len {
        Some((f, end))
    } else {
        None
    }
}

/// Read a whole trace: every stored frame, which must fill the bytes
/// exactly.
pub fn read_log(b: &Vec<u8>) -> (r: Option<Vec<TraceFrame>>)
    ensures
        match r {
            Some(frames) => dec_log_at(b@, 0) == Some(frames_view(frames@)),
            None => dec_log_at(b@, 0) is None,
        },
{
    let mut frames: Vec<TraceFrame> = Vec::new();
    let mut cur: usize = 0;
    let n = b.len();
    proof {
        assert(frames_view(frames@) =~= Seq::<FrameView>::empty());
    }
    while cur < n
        invariant
            n == b@.len(),
            0 <= cur <= n,
            ({
                match dec_log_at(b@, cur as int) {
                    Some(rest) => dec_log_at(b@, 0) == Some(frames_view(frames@) + rest),
                    None => dec_log_at(b@, 0) is None,
                }
            }),
        decreases n - cur,
    {
        match read_framed(b, cur) {
            Some((f, end)) => {
                frames.push(f);
                proof {
                    assert(frames_view(frames@) =~= frames_view(frames@.drop_last()).push(f@));
                    assert forall|rest: Seq<FrameView>|
                        dec_log_at(b@, end as int) == Some(rest) implies dec_log_at(
                        b@,
                        cur as int,
                    ) == Some(seq![f@] + rest) by {}
                    if dec_log_at(b@, end as int) is Some {
                        let rest = dec_log_at(b@, end as int)->0;
                        assert(frames_view(frames@.drop_last()) + (seq![f@] + rest)
                            =~= frames_view(frames@) + rest);
                    }
                }
                cur = end;
            },
            None => {
                return None;
            },
        }
    }
    proof {
        assert(dec_log_at(b@, cur as int) == Some(Seq::<FrameView>::empty()));
        assert(frames_view(frames@) + Seq::<FrameView>::empty() =~= frames_view(frames@));
    }
    Some(frames)
}

} // verus!
