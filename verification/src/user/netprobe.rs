//! netprobe: a DNS A-query for a hostname over UDP, and the scan of the
//! reply for its first A record.
use vstd::prelude::*;
use vstd::string::StringSliceAdditionalSpecFns;

verus! {

/// The resolver the probe asks (QEMU SLIRP).
pub const DNS_SERVER: [u8; 4] = [10, 0, 2, 3];

pub const DNS_PORT: u16 = 53;

/// Query id of every probe.
pub const QUERY_ID: u16 = 0x4c4f;

/// End of the label that starts at `i`: the next '.' at or after `i`,
/// or the end of the name.
pub open spec fn label_end(h: Seq<u8>, i: nat) -> nat
    decreases h.len() - i,
{
    if i >= h.len() {
        h.len()
    } else if h[i as int] == 46 {
        i
    } else {
        label_end(h, i + 1)
    }
}

pub proof fn lemma_label_end(h: Seq<u8>, i: nat)
    requires
        i <= h.len(),
    ensures
        i <= label_end(h, i) <= h.len(),
        label_end(h, i) < h.len() ==> h[label_end(h, i) as int] == 46,
        forall|j: int| i <= j < label_end(h, i) ==> h[j] != 46,
    decreases h.len() - i,
{
    if i < h.len() && h[i as int] != 46 {
        lemma_label_end(h, i + 1);
    }
}

/// The QNAME labels for `h[start..]`, split at each '.': every label
/// is its length (as a byte) followed by its bytes. The terminating
/// zero byte is not part of it.
pub open spec fn qname(h: Seq<u8>, start: nat) -> Seq<u8>
    decreases h.len() - start,
{
    if start > h.len() {
        Seq::empty()
    } else {
        let e = label_end(h, start);
        proof {
            lemma_label_end(h, start);
        }
        let lab = seq![(e - start) as u8] + h.subrange(start as int, e as int);
        if e < h.len() {
            lab + qname(h, e + 1)
        } else {
            lab
        }
    }
}

proof fn lemma_qname_len(h: Seq<u8>, start: nat)
    requires
        start <= h.len(),
    ensures
        qname(h, start).len() == h.len() - start + 1,
    decreases h.len() - start,
{
    lemma_label_end(h, start);
    let e = label_end(h, start);
    if e < h.len() {
        lemma_qname_len(h, e + 1);
    }
}

/// The question of an A query for `h`: QNAME, its zero byte, QTYPE A
/// and QCLASS IN.
pub open spec fn question(h: Seq<u8>) -> Seq<u8> {
    qname(h, 0) + seq![0u8, 0u8, 1u8, 0u8, 1u8]
}

/// The header bytes the query writes: id, flags (RD) and one question.
/// The answer, authority and additional counts (bytes 6..12) are left
/// as the buffer had them.
pub open spec fn query_header() -> Seq<u8> {
    seq![0x4cu8, 0x4fu8, 0x01u8, 0x00u8, 0x00u8, 0x01u8]
}

/// The QNAME labels of `host` and the bytes that close the question.
fn question_bytes(host: &[u8]) -> (r: Vec<u8>)
    ensures
        r@ == question(host@),
        r@.len() == host@.len() + 6,
{
    let mut r: Vec<u8> = Vec::new();
    let mut start: usize = 0;
    let mut go = true;
    while go
        invariant
            start <= host@.len(),
            go ==> qname(host@, 0) == r@ + qname(host@, start as nat),
            !go ==> qname(host@, 0) == r@,
        decreases host@.len() - start + if go { 1int } else { 0int },
    {
        let mut e = start;
        while e < host.len() && host[e] != 46
            invariant
                start <= e <= host@.len(),
                label_end(host@, start as nat) == label_end(host@, e as nat),
            decreases host@.len() - e,
        {
            e = e + 1;
        }
        proof {
            lemma_label_end(host@, start as nat);
        }
        let ghost before = r@;
        r.push((e - start) as u8);
        let mut i = start;
        while i < e
            invariant
                start <= i <= e,
                e <= host@.len(),
                r@ == before + seq![(e - start) as u8] + host@.subrange(start as int, i as int),
            decreases e - i,
        {
            r.push(host[i]);
            i = i + 1;
            assert(r@ =~= before + seq![(e - start) as u8] + host@.subrange(start as int, i as int));
        }
        if e < host.len() {
            assert(qname(host@, start as nat) == seq![(e - start) as u8] + host@.subrange(start as int, e as int)
                + qname(host@, (e + 1) as nat));
            assert(r@ + qname(host@, (e + 1) as nat) =~= before + qname(host@, start as nat));
            start = e + 1;
        } else {
            go = false;
        }
    }
    r.push(0u8);
    r.push(0u8);
    r.push(1u8);
    r.push(0u8);
    r.push(1u8);
    proof {
        lemma_qname_len(host@, 0);
    }
    r
}

/// Writes a DNS A query for `host` (id 0x4c4f, recursion desired) into
/// `out` and returns its length. Bytes 6..12 (the zero counts) are not
/// written: the buffer is expected to be zeroed there.
pub fn build_query(host: &str, out: &mut [u8]) -> (n: usize)
    requires
        host.spec_bytes().len() + 18 <= old(out)@.len(),
    ensures
        n == host.spec_bytes().len() + 18,
        final(out)@.len() == old(out)@.len(),
        final(out)@.subrange(0, 6) == query_header(),
        final(out)@.subrange(6, 12) == old(out)@.subrange(6, 12),
        final(out)@.subrange(12, n as int) == question(host.spec_bytes()),
        final(out)@.subrange(n as int, final(out)@.len() as int) == old(out)@.subrange(
            n as int,
            old(out)@.len() as int,
        ),
{
    let h = host.as_bytes();
    let q = question_bytes(h);
    out[0] = 0x4c;
    out[1] = 0x4f;
    out[2] = 0x01;
    out[3] = 0x00;
    out[4] = 0x00;
    out[5] = 0x01;
    let ghost mid = out@;
    assert(mid.subrange(0, 6) =~= query_header());
    assert(mid.subrange(6, mid.len() as int) =~= old(out)@.subrange(6, mid.len() as int));
    let olen = out.len();
    let mut i: usize = 0;
    while i < q.len()
        invariant
            olen == out@.len(),
            q@.len() + 12 <= out@.len(),
            out@.len() == mid.len(),
            i <= q@.len(),
            forall|j: int| 0 <= j < 12 ==> out@[j] == mid[j],
            forall|j: int| 12 <= j < 12 + i ==> out@[j] == q@[j - 12],
            forall|j: int| 12 + i <= j < out@.len() ==> out@[j] == mid[j],
        decreases q@.len() - i,
    {
        out[12 + i] = q[i];
        i = i + 1;
    }
    let n = 12 + q.len();
    assert(out@.subrange(0, 6) =~= query_header());
    assert(out@.subrange(6, 12) =~= old(out)@.subrange(6, 12));
    assert(out@.subrange(12, n as int) =~= q@);
    assert forall|j: int| n <= j < out@.len() implies out@[j] == old(out)@[j] by {
        assert(mid[j] == mid.subrange(6, mid.len() as int)[j - 6]);
    }
    assert(out@.subrange(n as int, out@.len() as int) =~= old(out)@.subrange(n as int, old(out)@.len() as int));
    n
}

/// Big-endian u16 at `m[i]`.
pub open spec fn be16(m: Seq<u8>, i: int) -> nat {
    m[i] as nat * 256 + m[i + 1] as nat
}

/// Where the DNS name at `m[i]` ends: after a compression pointer (two
/// bytes), after the zero label, or nowhere (`None`) when the name runs
/// past the message.
pub open spec fn name_skip(m: Seq<u8>, i: nat) -> Option<nat>
    decreases m.len() - i,
{
    if i >= m.len() {
        None
    } else if m[i as int] & 0xc0 == 0xc0 {
        Some(i + 2)
    } else if m[i as int] == 0 {
        Some(i + 1)
    } else if i + 1 + m[i as int] >= m.len() {
        None
    } else {
        name_skip(m, i + 1 + m[i as int] as nat)
    }
}

/// Advances past the DNS name that starts at `msg[i]`.
pub fn skip_name(msg: &[u8], start: usize) -> (r: Option<usize>)
    requires
        msg@.len() <= isize::MAX,
    ensures
        r matches Some(j) ==> j == name_skip(msg@, start as nat)->0,
        r is Some <==> name_skip(msg@, start as nat) is Some,
{
    let mut i = start;
    loop
        invariant
            msg@.len() <= isize::MAX,
            name_skip(msg@, i as nat) == name_skip(msg@, start as nat),
        decreases msg@.len() - i,
    {
        if i >= msg.len() {
            return None;
        }
        let len = msg[i];
        if len & 0xc0 == 0xc0 {
            return Some(i + 2);
        }
        if len == 0 {
            return Some(i + 1);
        }
        if msg.len() - i <= 1 + len as usize {
            return None;
        }
        i = i + 1 + len as usize;
    }
}

/// Where the question section ends: `k` questions skipped from `m[i]`,
/// each a name followed by QTYPE and QCLASS.
pub open spec fn skip_questions(m: Seq<u8>, i: nat, k: nat) -> Option<nat>
    decreases k,
{
    if k == 0 {
        Some(i)
    } else {
        match name_skip(m, i) {
            None => None,
            Some(j) => skip_questions(m, j + 4, (k - 1) as nat),
        }
    }
}

/// The first A record (type 1, four bytes of data) among `k` answers
/// starting at `m[i]`.
pub open spec fn scan_answers(m: Seq<u8>, i: nat, k: nat) -> Option<Seq<u8>>
    decreases k,
{
    if k == 0 {
        None
    } else {
        match name_skip(m, i) {
            None => None,
            Some(j) => if j + 10 > m.len() {
                None
            } else {
                let p = j + 10;
                let rdlen = be16(m, (j + 8) as int);
                if be16(m, j as int) == 1 && rdlen == 4 && p + 4 <= m.len() {
                    Some(m.subrange(p as int, (p + 4) as int))
                } else {
                    scan_answers(m, p + rdlen, (k - 1) as nat)
                }
            },
        }
    }
}

/// The address in the first A record of the answer section of `m`.
pub open spec fn a_record(m: Seq<u8>) -> Option<Seq<u8>> {
    if m.len() < 12 {
        None
    } else {
        match skip_questions(m, 12, be16(m, 4)) {
            None => None,
            Some(i) => scan_answers(m, i, be16(m, 6)),
        }
    }
}

proof fn lemma_name_skip_bound(m: Seq<u8>, i: nat)
    ensures
        name_skip(m, i) matches Some(j) ==> j <= m.len() + 1,
    decreases m.len() - i,
{
    if i < m.len() && m[i as int] & 0xc0 != 0xc0 && m[i as int] != 0 && i + 1 + m[i as int] < m.len() {
        lemma_name_skip_bound(m, i + 1 + m[i as int] as nat);
    }
}

/// Best-effort scan for the first A record in a DNS reply.
pub fn first_a_record(msg: &[u8]) -> (r: Option<[u8; 4]>)
    requires
        msg@.len() <= isize::MAX,
    ensures
        r is Some <==> a_record(msg@) is Some,
        r matches Some(ip) ==> ip@ == a_record(msg@)->0,
{
    if msg.len() < 12 {
        return None;
    }
    let qd = msg[4] as usize * 256 + msg[5] as usize;
    let mut i: usize = 12;
    let mut k: usize = 0;
    while k < qd
        invariant
            msg@.len() <= isize::MAX,
            msg@.len() >= 12,
            k <= qd,
            qd == be16(msg@, 4),
            i <= msg@.len() + 5,
            skip_questions(msg@, 12, qd as nat) == skip_questions(msg@, i as nat, (qd - k) as nat),
        decreases qd - k,
    {
        proof {
            lemma_name_skip_bound(msg@, i as nat);
        }
        match skip_name(msg, i) {
            None => {
                return None;
            },
            Some(j) => {
                i = j + 4;
            },
        }
        k = k + 1;
    }
    let an = msg[6] as usize * 256 + msg[7] as usize;
    let ghost start = i;
    k = 0;
    while k < an
        invariant
            msg@.len() <= isize::MAX,
            msg@.len() >= 12,
            k <= an,
            an == be16(msg@, 6),
            i <= msg@.len() + 65535 + 10,
            a_record(msg@) == scan_answers(msg@, i as nat, (an - k) as nat),
        decreases an - k,
    {
        proof {
            lemma_name_skip_bound(msg@, i as nat);
        }
        let j = match skip_name(msg, i) {
            None => {
                return None;
            },
            Some(j) => j,
        };
        if j > msg.len() || msg.len() - j < 10 {
            return None;
        }
        let rtype = msg[j] as usize * 256 + msg[j + 1] as usize;
        let rdlen = msg[j + 8] as usize * 256 + msg[j + 9] as usize;
        let p = j + 10;
        if rtype == 1 && rdlen == 4 && msg.len() - p >= 4 {
            let ip = [msg[p], msg[p + 1], msg[p + 2], msg[p + 3]];
            assert(ip@ =~= msg@.subrange(p as int, p + 4));
            return Some(ip);
        }
        i = p + rdlen;
        k = k + 1;
    }
    None
}

/// Whether a reply of `n` bytes in `buf` is a DNS response (QR bit
/// set), and its answer count (0 for a short reply).
pub fn reply_header(buf: &[u8], n: usize) -> (r: (bool, u16))
    requires
        n <= buf@.len(),
    ensures
        r.0 == (n >= 12 && buf@[2] & 0x80 != 0),
        r.1 == (if n >= 12 { be16(buf@, 6) } else { 0 }),
{
    if n >= 12 {
        (buf[2] & 0x80 != 0, buf[6] as u16 * 256 + buf[7] as u16)
    } else {
        (false, 0)
    }
}

} // verus!
