//! The shell's logic: its working directory and path resolution (the
//! kernel has no per-process cwd, so the shell resolves relative paths
//! itself), the line editor, and reading `ls` output from dirent64
//! records.

use vstd::prelude::*;
use vstd::utf8::valid_utf8;
use crate::fs::minix3::{path_components, split_path, le16};

verus! {

pub const MAX_LINE: usize = 256;
pub const MAX_PATH: usize = 120;

pub struct Cwd {
    pub buf: [u8; 120],
    pub len: usize,
}

impl Cwd {
    pub open spec fn wf(&self) -> bool {
        0 < self.len < MAX_PATH
    }

    /// The working directory's bytes.
    pub open spec fn path(&self) -> Seq<u8> {
        self.buf@.subrange(0, self.len as int)
    }

    /// The root directory.
    pub fn new() -> (c: Cwd)
        ensures
            c.wf(),
            c.path() == seq![47u8],
    {
        let mut buf = [0u8; 120];
        buf[0] = 47;
        let c = Cwd { buf, len: 1 };
        assert(c.path() =~= seq![47u8]);
        c
    }

    /// The working directory as text ("/" when it is not valid UTF-8).
    pub fn as_str(&self) -> (r: Vec<u8>)
        requires
            self.wf(),
        ensures
            r@ == if valid_utf8(self.path()) { self.path() } else { seq![47u8] },
    {
        let mut v: Vec<u8> = Vec::new();
        let mut i: usize = 0;
        while i < self.len
            invariant
                self.wf(),
                i <= self.len,
                v@ == self.buf@.subrange(0, i as int),
            decreases self.len - i,
        {
            v.push(self.buf[i]);
            i = i + 1;
            assert(v@ =~= self.buf@.subrange(0, i as int));
        }
        if crate::text::is_utf8(v.as_slice()) {
            v
        } else {
            vec![47u8]
        }
    }
}

/// `s` with its last component dropped back to the preceding '/'.
pub open spec fn trim_to_slash(s: Seq<u8>) -> Seq<u8>
    decreases s.len(),
{
    if s.len() > 1 && s.last() != 47 {
        trim_to_slash(s.drop_last())
    } else {
        s
    }
}

/// One resolution step: ".." goes up a level, any other component is
/// appended after a '/', truncated to fit the path buffer.
pub open spec fn resolve_step(s: Seq<u8>, c: Seq<u8>) -> Seq<u8> {
    if c == seq![46u8, 46u8] {
        let t = trim_to_slash(s);
        if t.len() > 1 {
            t.drop_last()
        } else {
            t
        }
    } else {
        let s2 = if (s.len() > 1 || s.len() == 0 || s[0] != 47) && s.len() + 1 < MAX_PATH {
            s.push(47)
        } else {
            s
        };
        let room = MAX_PATH - s2.len() - 1;
        let n = if c.len() < room { c.len() } else { room as nat };
        s2 + c.take(n as int)
    }
}

pub open spec fn resolve_all(s: Seq<u8>, comps: Seq<Seq<u8>>) -> Seq<u8>
    decreases comps.len(),
{
    if comps.len() == 0 {
        s
    } else {
        resolve_all(resolve_step(s, comps[0]), comps.drop_first())
    }
}

/// `path` resolved against the working directory `cwd`.
pub open spec fn spec_resolve(cwd: Seq<u8>, path: Seq<u8>) -> Seq<u8> {
    let start = if path.len() > 0 && path[0] == 47 { seq![47u8] } else { cwd };
    let r = resolve_all(start, path_components(path));
    let r2 = if r.len() == 0 { seq![47u8] } else { r };
    if valid_utf8(r2) { r2 } else { seq![47u8] }
}

proof fn lemma_trim_bounds(s: Seq<u8>)
    ensures
        trim_to_slash(s).len() <= s.len(),
        s.len() >= 1 ==> trim_to_slash(s).len() >= 1,
        trim_to_slash(s) == s.subrange(0, trim_to_slash(s).len() as int),
    decreases s.len(),
{
    if s.len() > 1 && s.last() != 47 {
        lemma_trim_bounds(s.drop_last());
        assert(s.drop_last().subrange(0, trim_to_slash(s).len() as int) =~= s.subrange(0, trim_to_slash(s).len() as int));
    } else {
        assert(s.subrange(0, s.len() as int) =~= s);
    }
}

/// Go up one level in `out[..len]`; the new length.
fn go_up(out: &[u8; 120], len: usize) -> (r: usize)
    requires
        1 <= len <= MAX_PATH,
    ensures
        r == resolve_step(out@.subrange(0, len as int), seq![46u8, 46u8]).len(),
        out@.subrange(0, r as int) == resolve_step(out@.subrange(0, len as int), seq![46u8, 46u8]),
        1 <= r <= len,
{
    let ghost s = out@.subrange(0, len as int);
    let mut l = len;
    while l > 1 && out[l - 1] != 47
        invariant
            1 <= l <= len,
            len <= MAX_PATH,
            trim_to_slash(s) == trim_to_slash(out@.subrange(0, l as int)),
        decreases l,
    {
        assert(out@.subrange(0, l as int).drop_last() =~= out@.subrange(0, l as int - 1));
        l = l - 1;
    }
    assert(trim_to_slash(out@.subrange(0, l as int)) == out@.subrange(0, l as int));
    if l > 1 {
        l = l - 1;
        assert(out@.subrange(0, l as int + 1).drop_last() =~= out@.subrange(0, l as int));
    }
    l
}

impl Cwd {
    /// Resolve `path` against the working directory; handles "." and "..".
    pub fn resolve(&self, path: &[u8]) -> (r: Vec<u8>)
        requires
            self.wf(),
        ensures
            r@ == spec_resolve(self.path(), path@),
    {
        let mut out = [0u8; 120];
        let mut len: usize;
        if path.len() > 0 && path[0] == 47 {
            out[0] = 47;
            len = 1;
            assert(out@.subrange(0, 1) =~= seq![47u8]);
        } else {
            len = self.len;
            let mut i: usize = 0;
            while i < self.len
                invariant
                    self.wf(),
                    i <= self.len,
                    out@.len() == 120,
                    forall|j: int| 0 <= j < i ==> out@[j] == self.buf@[j],
                decreases self.len - i,
            {
                out[i] = self.buf[i];
                i = i + 1;
            }
            assert(out@.subrange(0, len as int) =~= self.path());
        }
        let comps = split_path(path);
        let ghost cs = comps@.map_values(|c: Vec<u8>| c@);
        let ghost start = out@.subrange(0, len as int);
        let mut k: usize = 0;
        assert(cs.skip(0) =~= cs);
        while k < comps.len()
            invariant
                1 <= len < MAX_PATH,
                k <= comps@.len(),
                cs == comps@.map_values(|c: Vec<u8>| c@),
                cs == path_components(path@),
                resolve_all(start, cs) == resolve_all(out@.subrange(0, len as int), cs.skip(k as int)),
            decreases comps@.len() - k,
        {
            let ghost cur = out@.subrange(0, len as int);
            let ghost rest = cs.skip(k as int);
            assert(rest.drop_first() =~= cs.skip(k as int + 1));
            assert(rest[0] == comps@[k as int]@);
            let c = comps[k].as_slice();
            if c.len() == 2 && c[0] == 46 && c[1] == 46 {
                assert(c@ =~= seq![46u8, 46u8]);
                len = go_up(&out, len);
            } else {
                assert(c@ != seq![46u8, 46u8]);
                if len + 1 < MAX_PATH && (len > 1 || out[0] != 47) {
                    out[len] = 47;
                    len = len + 1;
                    assert(out@.subrange(0, len as int) =~= cur.push(47));
                } else {
                    assert(out@.subrange(0, len as int) =~= cur);
                }
                let ghost s2 = out@.subrange(0, len as int);
                let room = MAX_PATH - len - 1;
                let n = if c.len() < room { c.len() } else { room };
                let mut j: usize = 0;
                while j < n
                    invariant
                        j <= n,
                        len + n < MAX_PATH,
                        n <= c@.len(),
                        out@.len() == 120,
                        out@.subrange(0, len as int) == s2,
                        forall|x: int| 0 <= x < j ==> out@[len + x] == c@[x],
                    decreases n - j,
                {
                    out[len + j] = c[j];
                    j = j + 1;
                }
                assert(out@.subrange(0, (len + n) as int) =~= s2 + c@.take(n as int));
                len = len + n;
            }
            k = k + 1;
        }
        assert(cs.skip(k as int) =~= Seq::<Seq<u8>>::empty());
        let mut v: Vec<u8> = Vec::new();
        let mut i: usize = 0;
        while i < len
            invariant
                i <= len,
                len < MAX_PATH,
                v@ == out@.subrange(0, i as int),
            decreases len - i,
        {
            v.push(out[i]);
            i = i + 1;
            assert(v@ =~= out@.subrange(0, i as int));
        }
        if crate::text::is_utf8(v.as_slice()) {
            v
        } else {
            vec![47u8]
        }
    }
}


/// The line after the editor takes byte `b`: backspace (0x7f or 0x08)
/// drops the last byte, anything else is kept while there is room.
pub open spec fn edit(line: Seq<u8>, b: u8) -> Seq<u8> {
    if b == 0x7f || b == 0x08 {
        if line.len() > 0 { line.drop_last() } else { line }
    } else if line.len() < MAX_LINE - 1 {
        line.push(b)
    } else {
        line
    }
}

/// The line typed by the bytes `input` up to its first newline, and how
/// many bytes that takes (the newline included).
pub open spec fn typed_line(input: Seq<u8>, line: Seq<u8>, i: nat) -> (Seq<u8>, nat)
    decreases input.len() - i,
{
    if i >= input.len() {
        (line, i)
    } else if input[i as int] == 10 {
        (line, i + 1)
    } else {
        typed_line(input, edit(line, input[i as int]), i + 1)
    }
}

/// Read one line from the console bytes `input` (the end of `input`
/// ends the line too); the line and the bytes consumed.
pub fn read_line(input: &[u8]) -> (r: (Vec<u8>, usize))
    ensures
        (r.0@, r.1 as nat) == typed_line(input@, Seq::empty(), 0),
{
    let mut line: Vec<u8> = Vec::new();
    let mut i: usize = 0;
    while i < input.len() && input[i] != 10
        invariant
            i <= input@.len(),
            line@.len() < MAX_LINE,
            typed_line(input@, Seq::empty(), 0) == typed_line(input@, line@, i as nat),
        decreases input@.len() - i,
    {
        let b = input[i];
        if b == 0x7f || b == 0x08 {
            if line.len() > 0 {
                line.pop();
            }
        } else if line.len() < MAX_LINE - 1 {
            line.push(b);
        }
        i = i + 1;
    }
    if i < input.len() {
        (line, i + 1)
    } else {
        (line, i)
    }
}

/// End of the NUL-terminated name in `b[from..to]` (or `to`).
pub open spec fn name_end(b: Seq<u8>, from: nat, to: nat) -> nat
    decreases to - from,
{
    if from >= to {
        to
    } else if b[from as int] == 0 {
        from
    } else {
        name_end(b, from + 1, to)
    }
}

/// What `ls` prints for the dirent64 records in `b[off..n]`: each name
/// that is valid UTF-8, with a '/' after directories, two spaces apart.
/// A record shorter than its 19-byte header, or one that runs past the
/// buffer, ends the listing.
pub open spec fn ls_text(b: Seq<u8>, n: nat, off: nat) -> Seq<u8>
    decreases n - off,
{
    if off + 19 >= n || n > b.len() {
        Seq::empty()
    } else {
        let rl = le16(b, (off + 16) as int) as nat;
        if rl < 19 || off + rl > b.len() {
            Seq::empty()
        } else {
            let end = name_end(b, off + 19, off + rl);
            let name = b.subrange((off + 19) as int, end as int);
            let shown = if !valid_utf8(name) {
                Seq::empty()
            } else if b[(off + 18) as int] == 4 {
                name + seq![47u8, 32u8, 32u8]
            } else {
                name + seq![32u8, 32u8]
            };
            if off + rl < n {
                shown + ls_text(b, n, off + rl)
            } else {
                shown
            }
        }
    }
}

proof fn lemma_name_end(b: Seq<u8>, from: nat, to: nat)
    ensures
        from <= to ==> from <= name_end(b, from, to) <= to,
    decreases to - from,
{
    if from < to && b[from as int] != 0 {
        lemma_name_end(b, from + 1, to);
    }
}

/// The text `ls` prints for `n` bytes of dirent64 records in `buf`.
pub fn ls_entries(buf: &[u8], n: usize) -> (r: Vec<u8>)
    ensures
        r@ == ls_text(buf@, n as nat, 0),
{
    let mut out: Vec<u8> = Vec::new();
    if n > buf.len() {
        return out;
    }
    let mut off: usize = 0;
    let mut go = true;
    while go && off < n && n - off > 19
        invariant
            n <= buf@.len(),
            go ==> ls_text(buf@, n as nat, 0) == out@ + ls_text(buf@, n as nat, off as nat),
            !go ==> ls_text(buf@, n as nat, 0) == out@,
            off <= n,
        decreases n - off + if go { 1int } else { 0int },
    {
        let rl = buf[off + 16] as usize + buf[off + 17] as usize * 256;
        if rl < 19 || rl > buf.len() - off {
            go = false;
            assert(out@ + Seq::<u8>::empty() =~= out@);
        } else {
            let stop = off + rl;
            let mut end = off + 19;
            while end < stop && buf[end] != 0
                invariant
                    off + 19 <= end <= stop,
                    stop <= buf@.len(),
                    name_end(buf@, (off + 19) as nat, stop as nat) == name_end(buf@, end as nat, stop as nat),
                decreases stop - end,
            {
                end = end + 1;
            }
            proof {
                lemma_name_end(buf@, (off + 19) as nat, stop as nat);
            }
            let ghost before = out@;
            let mut name: Vec<u8> = Vec::new();
            let mut i = off + 19;
            while i < end
                invariant
                    off + 19 <= i <= end,
                    end <= buf@.len(),
                    name@ == buf@.subrange(off + 19, i as int),
                decreases end - i,
            {
                name.push(buf[i]);
                i = i + 1;
                assert(name@ =~= buf@.subrange(off + 19, i as int));
            }
            if crate::text::is_utf8(name.as_slice()) {
                crate::text::push_bytes(&mut out, name.as_slice());
                if buf[off + 18] == 4 {
                    out.push(47u8);
                }
                out.push(32u8);
                out.push(32u8);
            }
            proof {
                let shown = out@.subrange(before.len() as int, out@.len() as int);
                assert(out@ =~= before + shown);
            }
            if rl < n - off {
                off = stop;
            } else {
                go = false;
            }
        }
    }
    proof {
        if go {
            assert(out@ + Seq::<u8>::empty() =~= out@);
        }
    }
    out
}

/// The program path for an external command: a command with a '/' is
/// resolved against the working directory; a bare name is looked up in
/// /bin (truncated to fit the path buffer; the name itself when the
/// result is not valid UTF-8).
pub open spec fn command_path(cwd: Seq<u8>, cmd: Seq<u8>) -> Seq<u8> {
    if cmd.contains(47u8) {
        spec_resolve(cwd, cmd)
    } else {
        let n = if cmd.len() < MAX_PATH - 6 { cmd.len() } else { (MAX_PATH - 6) as nat };
        let p = seq![47u8, 98u8, 105u8, 110u8, 47u8] + cmd.take(n as int);
        if valid_utf8(p) { p } else { cmd }
    }
}

impl Cwd {
    /// See `command_path`.
    pub fn command_path(&self, cmd: &[u8]) -> (r: Vec<u8>)
        requires
            self.wf(),
        ensures
            r@ == command_path(self.path(), cmd@),
    {
        let mut has_slash = false;
        let mut i: usize = 0;
        while i < cmd.len()
            invariant
                i <= cmd@.len(),
                has_slash == exists|j: int| 0 <= j < i && cmd@[j] == 47,
            decreases cmd@.len() - i,
        {
            if cmd[i] == 47 {
                has_slash = true;
            }
            i = i + 1;
        }
        if has_slash {
            return self.resolve(cmd);
        }
        assert(!cmd@.contains(47u8));
        let n = if cmd.len() < MAX_PATH - 6 { cmd.len() } else { MAX_PATH - 6 };
        let mut p: Vec<u8> = vec![47u8, 98u8, 105u8, 110u8, 47u8];
        let ghost base = p@;
        let mut j: usize = 0;
        while j < n
            invariant
                j <= n,
                n <= cmd@.len(),
                p@ == base + cmd@.take(j as int),
            decreases n - j,
        {
            p.push(cmd[j]);
            j = j + 1;
            assert(p@ =~= base + cmd@.take(j as int));
        }
        if crate::text::is_utf8(p.as_slice()) {
            p
        } else {
            crate::fs::slice_to_vec(cmd)
        }
    }
}

} // verus!
