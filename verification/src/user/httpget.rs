//! httpget: an HTTP/1.0 GET over TCP, and the scan of the response
//! stream for a marker that may be split across received chunks.
use vstd::prelude::*;

verus! {

/// The host as QEMU SLIRP maps it.
pub const HOST: [u8; 4] = [10, 0, 2, 2];

pub const PORT: u16 = 18080;

/// The text the test server puts in its response.
pub const MARKER: &'static str = "LightOS-TCP-OK";

/// The request sent.
pub const REQUEST: &'static str = "GET / HTTP/1.0\r\nHost: lightos\r\nConnection: close\r\n\r\n";

/// Whether `m` occurs in `w` at `i`.
pub open spec fn occurs_at(w: Seq<u8>, m: Seq<u8>, i: int) -> bool {
    0 <= i && i + m.len() <= w.len() && w.subrange(i, i + m.len()) == m
}

/// Whether `m` occurs in `w`.
pub open spec fn contains(w: Seq<u8>, m: Seq<u8>) -> bool {
    exists|i: int| #[trigger] occurs_at(w, m, i)
}

/// The last `k` bytes of `w` (all of it when shorter).
pub open spec fn suffix(w: Seq<u8>, k: nat) -> Seq<u8> {
    if w.len() <= k {
        w
    } else {
        w.subrange(w.len() - k, w.len() as int)
    }
}

/// Whether `m` occurs in `w` at an index below `j`.
fn occurs_before(w: &[u8], m: &[u8], j: usize) -> (r: bool)
    requires
        m@.len() <= w@.len(),
        j <= w@.len() - m@.len() + 1,
    ensures
        r == exists|i: int| 0 <= i < j && #[trigger] occurs_at(w@, m@, i),
{
    let wl = w.len();
    let mut i: usize = 0;
    while i < j
        invariant
            wl == w@.len(),
            m@.len() <= w@.len(),
            j <= w@.len() - m@.len() + 1,
            i <= j,
            forall|k: int| 0 <= k < i ==> !#[trigger] occurs_at(w@, m@, k),
        decreases j - i,
    {
        let mut k: usize = 0;
        while k < m.len() && w[i + k] == m[k]
            invariant
                wl == w@.len(),
                m@.len() <= w@.len(),
                i < j,
                j <= w@.len() - m@.len() + 1,
                k <= m@.len(),
                forall|t: int| 0 <= t < k ==> w@[i + t] == m@[t],
            decreases m@.len() - k,
        {
            k = k + 1;
        }
        if k == m.len() {
            assert(w@.subrange(i as int, i + m@.len()) =~= m@);
            assert(occurs_at(w@, m@, i as int));
            return true;
        }
        assert(!occurs_at(w@, m@, i as int)) by {
            if occurs_at(w@, m@, i as int) {
                assert(w@.subrange(i as int, i + m@.len())[k as int] == w@[i + k]);
            }
        }
        i = i + 1;
    }
    false
}

/// One received chunk: whether the marker occurs in the kept tail of
/// the previous chunks followed by `chunk`, and the new tail (the last
/// `marker.len() - 1` bytes of that window).
pub fn scan_chunk(tail: &[u8], chunk: &[u8], marker: &[u8]) -> (r: (bool, Vec<u8>))
    requires
        marker@.len() >= 1,
        tail@.len() + chunk@.len() <= usize::MAX,
    ensures
        r.0 == contains(tail@ + chunk@, marker@),
        r.1@ == suffix(tail@ + chunk@, (marker@.len() - 1) as nat),
{
    let mut window: Vec<u8> = Vec::new();
    crate::text::push_bytes(&mut window, tail);
    crate::text::push_bytes(&mut window, chunk);
    let w = window.as_slice();
    let wl = w.len();
    let ml = marker.len();
    let found = if ml <= wl {
        let f = occurs_before(w, marker, wl - ml + 1);
        proof {
            if contains(w@, marker@) {
                let i = choose|i: int| #[trigger] occurs_at(w@, marker@, i);
            }
        }
        f
    } else {
        assert(!contains(w@, marker@)) by {
            if contains(w@, marker@) {
                let i = choose|i: int| #[trigger] occurs_at(w@, marker@, i);
            }
        }
        false
    };
    let keep = if wl < ml - 1 { wl } else { ml - 1 };
    let mut t: Vec<u8> = Vec::new();
    let mut i = wl - keep;
    while i < wl
        invariant
            wl == w@.len(),
            keep <= wl,
            wl - keep <= i <= wl,
            t@ == w@.subrange(wl - keep, i as int),
        decreases wl - i,
    {
        t.push(w[i]);
        i = i + 1;
        assert(t@ =~= w@.subrange(wl - keep, i as int));
    }
    assert(t@ =~= suffix(w@, (ml - 1) as nat));
    (found, t)
}

/// Scanning chunk by chunk finds the marker exactly when it occurs in
/// the whole stream, even split across chunks: with the tail kept from
/// the stream so far, the marker occurs in the stream extended by
/// `chunk` iff it occurred before or occurs in the tail followed by
/// `chunk`, and the next tail is the same as the stream's.
pub proof fn lemma_scan_stream(all: Seq<u8>, chunk: Seq<u8>, m: Seq<u8>)
    requires
        m.len() >= 1,
    ensures
        contains(all + chunk, m) <==> (contains(all, m) || contains(
            suffix(all, (m.len() - 1) as nat) + chunk,
            m,
        )),
        suffix(all + chunk, (m.len() - 1) as nat) == suffix(suffix(all, (m.len() - 1) as nat) + chunk, (m.len() - 1) as nat),
{
    let k = (m.len() - 1) as nat;
    let tail = suffix(all, k);
    let d = all.len() - tail.len();
    assert(tail + chunk =~= (all + chunk).subrange(d, (all + chunk).len() as int));
    if contains(all + chunk, m) {
        let i = choose|i: int| #[trigger] occurs_at(all + chunk, m, i);
        if i + m.len() <= all.len() {
            assert(all.subrange(i, i + m.len()) =~= (all + chunk).subrange(i, i + m.len()));
            assert(occurs_at(all, m, i));
        } else {
            assert(i >= d);
            assert((tail + chunk).subrange(i - d, i - d + m.len()) =~= (all + chunk).subrange(i, i + m.len()));
            assert(occurs_at(tail + chunk, m, i - d));
        }
    }
    if contains(all, m) {
        let i = choose|i: int| #[trigger] occurs_at(all, m, i);
        assert(all.subrange(i, i + m.len()) =~= (all + chunk).subrange(i, i + m.len()));
        assert(occurs_at(all + chunk, m, i));
    }
    if contains(tail + chunk, m) {
        let i = choose|i: int| #[trigger] occurs_at(tail + chunk, m, i);
        assert((tail + chunk).subrange(i, i + m.len()) =~= (all + chunk).subrange(i + d, i + d + m.len()));
        assert(occurs_at(all + chunk, m, i + d));
    }
    let w = all + chunk;
    let v = tail + chunk;
    if w.len() <= k {
        assert(d == 0);
        assert(v =~= w);
    } else if v.len() <= k {
        assert(w.subrange(w.len() - k, w.len() as int) =~= v);
    } else {
        assert(w.subrange(w.len() - k, w.len() as int) =~= v.subrange(v.len() - k, v.len() as int));
    }
}

/// The first line of a response chunk: the bytes before its first
/// carriage return (all of it when there is none).
pub open spec fn first_line(b: Seq<u8>) -> Seq<u8>
    decreases b.len(),
{
    if b.len() == 0 || b[0] == 13 {
        Seq::empty()
    } else {
        seq![b[0]] + first_line(b.drop_first())
    }
}

/// The status line at the start of the first response chunk.
pub fn status_line(chunk: &[u8]) -> (r: Vec<u8>)
    ensures
        r@ == first_line(chunk@),
{
    let mut r: Vec<u8> = Vec::new();
    let mut i: usize = 0;
    assert(chunk@.subrange(0, chunk@.len() as int) =~= chunk@);
    assert(r@ + first_line(chunk@) =~= first_line(chunk@));
    while i < chunk.len() && chunk[i] != 13
        invariant
            i <= chunk@.len(),
            first_line(chunk@) == r@ + first_line(chunk@.subrange(i as int, chunk@.len() as int)),
        decreases chunk@.len() - i,
    {
        let ghost rest = chunk@.subrange(i as int, chunk@.len() as int);
        assert(rest.drop_first() =~= chunk@.subrange(i + 1, chunk@.len() as int));
        r.push(chunk[i]);
        i = i + 1;
        assert(first_line(chunk@) == r@ + first_line(chunk@.subrange(i as int, chunk@.len() as int)));
    }
    proof {
        let rest = chunk@.subrange(i as int, chunk@.len() as int);
        assert(first_line(rest) == Seq::<u8>::empty());
        assert(r@ + Seq::<u8>::empty() =~= r@);
    }
    r
}

} // verus!
