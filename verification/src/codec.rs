//! Length-prefixed packet framing.
//!
//! A frame is the ASCII decimal byte count of the payload, one `:`, then
//! exactly that many payload bytes; the next frame begins immediately after.
//! `encode_frame` emits a frame; `FrameDecoder` consumes a stream fed in
//! arbitrary chunks and yields each payload exactly once.  `lemma_frame_rt`
//! and `lemma_scan_extend` prove that framing inverts and that a partial
//! prefix never commits to a wrong answer, so chunking cannot change the
//! decoded frame sequence.

use vstd::prelude::*;
use crate::json::pow10;

verus! {

pub open spec fn is_bdigit(b: u8) -> bool {
    48 <= b && b <= 57
}

pub open spec fn bdigit_byte(d: int) -> u8 {
    (48 + d) as u8
}

/// Decimal text of a non-negative integer, as ASCII bytes.
pub open spec fn dec_bytes(n: int) -> Seq<u8>
    decreases n,
{
    if n < 10 {
        seq![bdigit_byte(n)]
    } else {
        dec_bytes(n / 10).push(bdigit_byte(n % 10))
    }
}

/// The frame for a payload: its length in decimal, a colon, the payload.
pub open spec fn spec_frame(p: Seq<u8>) -> Seq<u8> {
    dec_bytes(p.len() as int) + seq![58u8] + p
}

/// Value of a byte digit run read most significant digit first.
pub open spec fn bval_l(d: Seq<u8>) -> int
    decreases d.len(),
{
    if d.len() == 0 {
        0
    } else {
        (d[0] - 48) * pow10((d.len() - 1) as nat) + bval_l(d.drop_first())
    }
}

/// First index at or after `i` holding a non-digit, or the length if none.
pub open spec fn digits_end(b: Seq<u8>, i: int) -> int
    decreases b.len() - i,
{
    if 0 <= i < b.len() && is_bdigit(b[i]) {
        digits_end(b, i + 1)
    } else {
        i
    }
}

/// What a buffer prefix holds: not yet a whole frame, an unrecoverable
/// malformation of the length prefix, or one whole frame (its payload and
/// the count of bytes it occupies).
pub enum FrameScan {
    Incomplete,
    Bad,
    Ready(Seq<u8>, int),
}

/// Scan one frame from the front of the buffer.
pub open spec fn scan_frame(b: Seq<u8>) -> FrameScan {
    let e = digits_end(b, 0);
    if e == b.len() {
        FrameScan::Incomplete
    } else if b[e] != 58 || e == 0 {
        FrameScan::Bad
    } else {
        let n = bval_l(b.subrange(0, e));
        if n > usize::MAX as int {
            FrameScan::Bad
        } else if b.len() < e + 1 + n {
            FrameScan::Incomplete
        } else {
            FrameScan::Ready(b.subrange(e + 1, e + 1 + n), e + 1 + n)
        }
    }
}

fn write_dec_bytes(n: usize, out: &mut Vec<u8>)
    ensures
        final(out)@ == old(out)@ + dec_bytes(n as int),
    decreases n,
{
    if n < 10 {
        out.push(48 + (n as u8));
    } else {
        write_dec_bytes(n / 10, out);
        out.push(48 + ((n % 10) as u8));
    }
}

/// Frame a payload for the wire.
pub fn encode_frame(payload: &Vec<u8>) -> (out: Vec<u8>)
    ensures
        out@ == spec_frame(payload@),
{
    let mut out: Vec<u8> = Vec::new();
    write_dec_bytes(payload.len(), &mut out);
    out.push(58);
    let n = payload.len();
    let mut i: usize = 0;
    while i < n
        invariant
            n == payload@.len(),
            i <= n,
            out@ == dec_bytes(n as int) + seq![58u8] + payload@.take(i as int),
        decreases n - i,
    {
        out.push(payload[i]);
        proof {
            assert(payload@.take(i + 1) =~= payload@.take(i as int).push(payload@[i as int]));
            assert(out@ =~= dec_bytes(n as int) + seq![58u8] + payload@.take(i + 1));
        }
        i = i + 1;
    }
    proof {
        assert(payload@.take(n as int) =~= payload@);
    }
    out
}

/// Incremental frame decoder: buffers stream bytes as they arrive and
/// yields each complete frame.  Decoding depends only on the concatenation
/// of everything fed, never on chunk boundaries.
#[derive(Debug)]
pub struct FrameDecoder {
    buf: Vec<u8>,
}

impl View for FrameDecoder {
    type V = Seq<u8>;

    closed spec fn view(&self) -> Seq<u8> {
        self.buf@
    }
}

/// One decoding step: a whole frame's payload, a request for more bytes, or
/// a malformed length prefix (fatal for the connection).
pub enum FrameStep {
    Frame(Vec<u8>),
    NeedMore,
    Malformed,
}

impl FrameDecoder {
    pub fn new() -> (r: FrameDecoder)
        ensures
            r@ == Seq::<u8>::empty(),
    {
        FrameDecoder { buf: Vec::new() }
    }

    /// How many unconsumed bytes sit in the buffer; after every whole
    /// frame has been taken, a positive count means a partial frame, so a
    /// stream that closes here closed mid-frame.
    pub fn buffered(&self) -> (r: usize)
        ensures
            r == self@.len(),
    {
        self.buf.len()
    }

    /// Append one chunk of stream bytes, of any size including empty.
    pub fn feed(&mut self, chunk: &[u8])
        ensures
            final(self)@ == old(self)@ + chunk@,
    {
        let n = chunk.len();
        let mut i: usize = 0;
        while i < n
            invariant
                n == chunk@.len(),
                i <= n,
                self.buf@ == old(self)@ + chunk@.take(i as int),
            decreases n - i,
        {
            self.buf.push(chunk[i]);
            proof {
                assert(chunk@.take(i + 1) =~= chunk@.take(i as int).push(chunk@[i as int]));
                assert(self.buf@ =~= old(self)@ + chunk@.take(i + 1));
            }
            i = i + 1;
        }
        proof {
            assert(chunk@.take(n as int) =~= chunk@);
        }
    }

    /// Try to take one frame off the front of the buffer.
    #[verifier::loop_isolation(false)]
    #[verifier::rlimit(60)]
    pub fn try_next(&mut self) -> (r: FrameStep)
        ensures
            match scan_frame(old(self)@) {
                FrameScan::Ready(p, c) => (r matches FrameStep::Frame(f)
                    && f@ == p) && final(self)@ == old(self)@.skip(c),
                FrameScan::Incomplete => (r matches FrameStep::NeedMore)
                    && final(self)@ == old(self)@,
                FrameScan::Bad => (r matches FrameStep::Malformed)
                    && final(self)@ == old(self)@,
            },
    {
        let blen = self.buf.len();
        let mut e: usize = 0;
        while e < blen && 48 <= self.buf[e] && self.buf[e] <= 57
            invariant
                0 <= e <= blen,
                forall|k: int| 0 <= k < e ==> is_bdigit(self.buf@[k]),
                digits_end(self.buf@, e as int) == digits_end(self.buf@, 0),
            decreases blen - e,
        {
            e = e + 1;
        }
        proof {
            assert(digits_end(self.buf@, e as int) == e as int);
        }
        if e == blen {
            return FrameStep::NeedMore;
        }
        if self.buf[e] != 58 || e == 0 {
            return FrameStep::Malformed;
        }
        // value of the digit prefix, with overflow reported as malformed
        let mut n: usize = 0;
        let mut k: usize = 0;
        let mut overflow: bool = false;
        while k < e
            invariant
                0 <= k <= e,
                e < blen,
                blen == self.buf@.len(),
                forall|j: int| 0 <= j < e ==> is_bdigit(self.buf@[j]),
                !overflow ==> n as int == bval_acc(self.buf@, 0, k as int),
                overflow ==> bval_acc(self.buf@, 0, k as int) > usize::MAX as int,
            decreases e - k,
        {
            let d = (self.buf[k] - 48) as usize;
            if !overflow {
                if n > usize::MAX / 10 || 10 * n > usize::MAX - d {
                    overflow = true;
                    proof {
                        assert(bval_acc(self.buf@, 0, k + 1) == (n as int) * 10 + d);
                        assert((n as int) * 10 + d > usize::MAX as int);
                    }
                } else {
                    n = 10 * n + d;
                    proof {
                        assert(bval_acc(self.buf@, 0, k + 1) == n as int);
                    }
                }
            } else {
                proof {
                    lemma_bval_acc_monotone(self.buf@, 0, k as int, k + 1);
                }
            }
            k = k + 1;
        }
        proof {
            lemma_bval_acc_is_bval(self.buf@, e as int);
        }
        if overflow {
            return FrameStep::Malformed;
        }
        if blen - (e + 1) < n {
            return FrameStep::NeedMore;
        }
        let mut payload: Vec<u8> = Vec::new();
        let mut i: usize = e + 1;
        while i < e + 1 + n
            invariant
                e + 1 <= i <= e + 1 + n,
                e + 1 + n <= blen,
                payload@ == self.buf@.subrange(e + 1, i as int),
            decreases e + 1 + n - i,
        {
            payload.push(self.buf[i]);
            proof {
                assert(self.buf@.subrange(e + 1, i + 1) =~= self.buf@.subrange(
                    e + 1,
                    i as int,
                ).push(self.buf@[i as int]));
            }
            i = i + 1;
        }
        let mut restv: Vec<u8> = Vec::new();
        let mut j: usize = e + 1 + n;
        while j < blen
            invariant
                e + 1 + n <= j <= blen,
                restv@ == self.buf@.subrange(e + 1 + n, j as int),
            decreases blen - j,
        {
            restv.push(self.buf[j]);
            proof {
                assert(self.buf@.subrange(e + 1 + n, j + 1) =~= self.buf@.subrange(
                    e + 1 + n,
                    j as int,
                ).push(self.buf@[j as int]));
            }
            j = j + 1;
        }
        self.buf = restv;
        proof {
            assert(self.buf@ =~= old(self)@.skip(e + 1 + n));
        }
        FrameStep::Frame(payload)
    }
}

/// Value of the digit run `b[i..j]` read as decimal, most significant
/// first, accumulated from the left.
pub open spec fn bval_acc(b: Seq<u8>, i: int, j: int) -> int
    decreases j - i,
{
    if i >= j {
        0
    } else {
        bval_acc(b, i, j - 1) * 10 + (b[j - 1] - 48)
    }
}

proof fn lemma_bval_acc_monotone(b: Seq<u8>, i: int, j1: int, j2: int)
    requires
        i <= j1 <= j2,
        forall|k: int| i <= k < j2 ==> 0 <= #[trigger] b[k] - 48,
        bval_acc(b, i, j1) >= 0,
    ensures
        bval_acc(b, i, j2) >= bval_acc(b, i, j1),
    decreases j2 - j1,
{
    if j1 < j2 {
        lemma_bval_acc_monotone(b, i, j1, j2 - 1);
        assert(bval_acc(b, i, j2 - 1) * 10 >= bval_acc(b, i, j2 - 1)) by (nonlinear_arith)
            requires
                bval_acc(b, i, j2 - 1) >= 0,
        ;
    }
}

proof fn lemma_bval_acc_is_bval(b: Seq<u8>, e: int)
    requires
        0 <= e <= b.len(),
    ensures
        bval_acc(b, 0, e) == bval_l(b.subrange(0, e)),
    decreases e,
{
    if e > 0 {
        lemma_bval_acc_is_bval(b, e - 1);
        lemma_bval_push(b.subrange(0, e - 1), b[e - 1]);
        assert(b.subrange(0, e) =~= b.subrange(0, e - 1).push(b[e - 1]));
    }
}

proof fn lemma_bval_push(d: Seq<u8>, x: u8)
    ensures
        bval_l(d.push(x)) == bval_l(d) * 10 + (x - 48),
    decreases d.len(),
{
    if d.len() == 0 {
        assert(d.push(x)[0] == x);
        assert(d.push(x).drop_first() =~= Seq::<u8>::empty());
        assert(bval_l(Seq::<u8>::empty()) == 0);
        assert((x - 48) * 1 == x - 48) by (nonlinear_arith);
    } else {
        assert(d.push(x).drop_first() =~= d.drop_first().push(x));
        lemma_bval_push(d.drop_first(), x);
        let a = d[0] - 48;
        let p = pow10((d.len() - 1) as nat);
        assert(pow10(d.len() as nat) == 10 * p);
        assert(d.push(x)[0] == d[0]);
        assert(bval_l(d.push(x)) == a * (10 * p) + bval_l(d.drop_first()) * 10 + (x - 48));
        assert(a * (10 * p) == (a * p) * 10) by (nonlinear_arith);
    }
}

proof fn lemma_dec_bytes_props(n: int)
    requires
        n >= 0,
    ensures
        dec_bytes(n).len() >= 1,
        forall|k: int| 0 <= k < dec_bytes(n).len() ==> is_bdigit(#[trigger] dec_bytes(n)[k]),
        bval_l(dec_bytes(n)) == n,
    decreases n,
{
    if n < 10 {
        assert(dec_bytes(n) =~= seq![bdigit_byte(n)]);
        assert(dec_bytes(n).drop_first() =~= Seq::<u8>::empty());
        assert(bval_l(Seq::<u8>::empty()) == 0);
        assert(bval_l(dec_bytes(n)) == (bdigit_byte(n) - 48) * pow10(0) + 0);
        assert(n * 1 == n) by (nonlinear_arith);
    } else {
        lemma_dec_bytes_props(n / 10);
        lemma_bval_push(dec_bytes(n / 10), bdigit_byte(n % 10));
        assert(bval_l(dec_bytes(n)) == (n / 10) * 10 + n % 10);
        assert(forall|k: int|
            0 <= k < dec_bytes(n).len() ==> is_bdigit(#[trigger] dec_bytes(n)[k])) by {
            assert(forall|k: int|
                0 <= k < dec_bytes(n / 10).len() ==> #[trigger] dec_bytes(n)[k] == dec_bytes(
                    n / 10,
                )[k]);
            assert(dec_bytes(n)[dec_bytes(n).len() - 1] == bdigit_byte(n % 10));
        }
    }
}

proof fn lemma_digits_end_run(b: Seq<u8>, i: int, e: int)
    requires
        0 <= i <= e <= b.len(),
        forall|k: int| i <= k < e ==> is_bdigit(#[trigger] b[k]),
        e == b.len() || !is_bdigit(b[e]),
    ensures
        digits_end(b, i) == e,
    decreases e - i,
{
    if i < e {
        assert(is_bdigit(b[i]));
        lemma_digits_end_run(b, i + 1, e);
    }
}

/// Once a prefix of the stream yields a frame, any extension of that prefix
/// yields the same frame: a decoder can act on a frame as soon as it is
/// complete, and later bytes cannot change it.
pub proof fn lemma_scan_extend(b: Seq<u8>, ext: Seq<u8>)
    ensures
        match scan_frame(b) {
            FrameScan::Ready(p, c) => scan_frame(b + ext) == FrameScan::Ready(p, c),
            FrameScan::Bad => scan_frame(b + ext) == FrameScan::Bad,
            FrameScan::Incomplete => true,
        },
{
    let e = digits_end(b, 0);
    lemma_digits_end_le(b, 0);
    if e < b.len() {
        let w = b + ext;
        assert forall|k: int| 0 <= k < e implies is_bdigit(#[trigger] b[k]) by {
            lemma_digits_end_digits(b, 0, k);
        }
        assert forall|k: int| 0 <= k < e implies is_bdigit(#[trigger] w[k]) by {
            assert(w[k] == b[k]);
        }
        assert(w[e] == b[e]);
        lemma_digits_end_run(w, 0, e);
        assert(w.subrange(0, e) =~= b.subrange(0, e));
        if b[e] == 58 && e != 0 {
            let n = bval_l(b.subrange(0, e));
            lemma_bval_nonneg(b.subrange(0, e));
            if n <= usize::MAX as int && b.len() >= e + 1 + n {
                assert forall|k: int|
                    0 <= k < n implies #[trigger] w.subrange(e + 1, e + 1 + n)[k] == b.subrange(
                    e + 1,
                    e + 1 + n,
                )[k] by {
                    assert(w[e + 1 + k] == b[e + 1 + k]);
                    assert(w.subrange(e + 1, e + 1 + n)[k] == w[e + 1 + k]);
                    assert(b.subrange(e + 1, e + 1 + n)[k] == b[e + 1 + k]);
                }
                assert(w.subrange(e + 1, e + 1 + n) =~= b.subrange(e + 1, e + 1 + n));
            }
        }
    }
}

proof fn lemma_bval_nonneg(d: Seq<u8>)
    requires
        forall|k: int| 0 <= k < d.len() ==> is_bdigit(#[trigger] d[k]),
    ensures
        bval_l(d) >= 0,
    decreases d.len(),
{
    if d.len() > 0 {
        assert(is_bdigit(d[0]));
        assert(forall|k: int|
            0 <= k < d.drop_first().len() ==> is_bdigit(#[trigger] d.drop_first()[k]));
        lemma_bval_nonneg(d.drop_first());
        lemma_pow10_pos_u((d.len() - 1) as nat);
        assert((d[0] - 48) * pow10((d.len() - 1) as nat) >= 0) by (nonlinear_arith)
            requires
                d[0] - 48 >= 0,
                pow10((d.len() - 1) as nat) >= 1,
        ;
    }
}

proof fn lemma_pow10_pos_u(k: nat)
    ensures
        pow10(k) >= 1,
    decreases k,
{
    if k > 0 {
        lemma_pow10_pos_u((k - 1) as nat);
    }
}

proof fn lemma_digits_end_le(b: Seq<u8>, i: int)
    requires
        0 <= i <= b.len(),
    ensures
        i <= digits_end(b, i) <= b.len(),
        digits_end(b, i) == b.len() || !is_bdigit(b[digits_end(b, i)]),
    decreases b.len() - i,
{
    if i < b.len() && is_bdigit(b[i]) {
        lemma_digits_end_le(b, i + 1);
    }
}

proof fn lemma_digits_end_digits(b: Seq<u8>, i: int, k: int)
    requires
        0 <= i <= b.len(),
        i <= k < digits_end(b, i),
    ensures
        is_bdigit(b[k]),
    decreases b.len() - i,
{
    lemma_digits_end_le(b, i);
    if i < b.len() && is_bdigit(b[i]) {
        if k > i {
            lemma_digits_end_digits(b, i + 1, k);
        }
    }
}

/// A scanned frame occupies at least its length prefix and colon, and no
/// more than the buffer.
pub proof fn lemma_scan_ready_bounds(b: Seq<u8>)
    ensures
        match scan_frame(b) {
            FrameScan::Ready(p, c) => 2 <= c <= b.len() && p.len() <= b.len(),
            _ => true,
        },
{
    let e = digits_end(b, 0);
    lemma_digits_end_le(b, 0);
    if e < b.len() && b[e] == 58 && e != 0 {
        assert forall|k: int| 0 <= k < e implies is_bdigit(#[trigger] b[k]) by {
            lemma_digits_end_digits(b, 0, k);
        }
        assert(forall|k: int|
            0 <= k < e ==> is_bdigit(#[trigger] b.subrange(0, e)[k]));
        lemma_bval_nonneg(b.subrange(0, e));
    }
}

/// Framing round trip: a framed payload followed by anything scans as
/// exactly that payload, consuming exactly the frame's bytes.
pub proof fn lemma_frame_rt(p: Seq<u8>, rest: Seq<u8>)
    requires
        p.len() <= usize::MAX,
    ensures
        scan_frame(spec_frame(p) + rest) == FrameScan::Ready(p, spec_frame(p).len() as int),
{
    let n = p.len() as int;
    lemma_dec_bytes_props(n);
    let d = dec_bytes(n);
    let e = d.len() as int;
    let w = spec_frame(p) + rest;
    assert(w =~= d + (seq![58u8] + (p + rest)));
    assert forall|k: int| 0 <= k < e implies is_bdigit(#[trigger] w[k]) by {
        assert(w[k] == d[k]);
    }
    assert(w[e] == 58);
    assert(!is_bdigit(58u8));
    lemma_digits_end_run(w, 0, e);
    assert(w.subrange(0, e) =~= d);
    assert(bval_l(w.subrange(0, e)) == n);
    assert(w.len() >= e + 1 + n);
    assert(w.subrange(e + 1, e + 1 + n) =~= p);
    assert(spec_frame(p).len() == e + 1 + n);
}

} // verus!
