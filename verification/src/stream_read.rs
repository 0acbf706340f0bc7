//! Reading from a child process's output stream: what a read asks for,
//! how far it reads, and what it returns and keeps buffered.

use vstd::prelude::*;
use vstd::string::StringSliceAdditionalSpecFns;

use crate::text::{find_bytes_from, find_from, lemma_find_from_props, occurs_at, push_range, same_bytes};

verus! {

/// How much a stream read asks for.
#[derive(PartialEq, Eq, Structural, Debug, Clone, Copy)]
pub enum ReadMode {
    /// One line, without its line feed.
    Line,
    /// One line, with its line feed.
    LineKeep,
    /// Everything available.
    All,
    /// At most this many bytes.
    Bytes(u64),
}

/// The target of reads that take everything: 1024⁴ bytes.
pub const READ_ALL: u64 = 1099511627776;

/// The option text of a read, after one leading `*`: `line` or `l`, `L`,
/// `all` or `a`.
pub open spec fn read_option_spec(opt: Seq<u8>) -> Option<ReadMode> {
    let o = if opt.len() > 0 && opt[0] == 42 {
        opt.drop_first()
    } else {
        opt
    };
    if o == "line".spec_bytes() || o == "l".spec_bytes() {
        Some(ReadMode::Line)
    } else if o == "L".spec_bytes() {
        Some(ReadMode::LineKeep)
    } else if o == "all".spec_bytes() || o == "a".spec_bytes() {
        Some(ReadMode::All)
    } else {
        None
    }
}

/// The read mode named by an option text; `None` for an unsupported option.
pub fn parse_read_option(opt: &str) -> (r: Option<ReadMode>)
    ensures
        r == read_option_spec(opt.spec_bytes()),
{
    let b = opt.as_bytes();
    let mut o: Vec<u8> = Vec::new();
    if b.len() > 0 && b[0] == 42 {
        push_range(&mut o, b, 1, b.len());
        assert(o@ =~= b@.drop_first());
    } else {
        push_range(&mut o, b, 0, b.len());
        assert(o@ =~= b@);
    }
    let o = o.as_slice();
    if same_bytes(o, "line".as_bytes()) || same_bytes(o, "l".as_bytes()) {
        Some(ReadMode::Line)
    } else if same_bytes(o, "L".as_bytes()) {
        Some(ReadMode::LineKeep)
    } else if same_bytes(o, "all".as_bytes()) || same_bytes(o, "a".as_bytes()) {
        Some(ReadMode::All)
    } else {
        None
    }
}

/// Whether the mode reads a line.
pub open spec fn is_line_mode(mode: ReadMode) -> bool {
    mode == ReadMode::Line || mode == ReadMode::LineKeep
}

/// How many buffered bytes a read wants before it stops: through the first
/// line feed for line reads (everything when there is none yet), everything
/// for `All`, the count for `Bytes`.
pub open spec fn target_spec(mode: ReadMode, buffered: Seq<u8>) -> nat {
    match mode {
        ReadMode::Bytes(n) => n as nat,
        ReadMode::All => READ_ALL as nat,
        _ => match find_from(buffered, seq![10u8], 0) {
            Some(p) => (p + 1) as nat,
            None => READ_ALL as nat,
        },
    }
}

/// The target of a read given what is buffered already.
pub fn initial_target(mode: ReadMode, buffered: &[u8]) -> (r: u64)
    ensures
        r == target_spec(mode, buffered@),
{
    match mode {
        ReadMode::Bytes(n) => n,
        ReadMode::All => READ_ALL,
        _ => {
            let nl: Vec<u8> = vec![10u8];
            assert(nl@ =~= seq![10u8]);
            proof {
                lemma_find_from_props(buffered@, seq![10u8], 0);
            }
            let bl = buffered.len();
            match find_bytes_from(buffered, nl.as_slice(), 0) {
                Some(p) => {
                    assert(occurs_at(buffered@, seq![10u8], p as int));
                    (p + 1) as u64
                },
                None => READ_ALL,
            }
        },
    }
}

/// The target after a chunk arrived when `before` bytes were buffered: a
/// line read stops after the chunk's first line feed.
pub open spec fn retarget_spec(mode: ReadMode, target: nat, before: nat, chunk: Seq<u8>) -> nat {
    if is_line_mode(mode) {
        match find_from(chunk, seq![10u8], 0) {
            Some(p) => (before + p + 1) as nat,
            None => target,
        }
    } else {
        target
    }
}

/// The target once `chunk` was read after `before` buffered bytes.
pub fn retarget(mode: ReadMode, target: u64, before: u64, chunk: &[u8]) -> (r: u64)
    requires
        before + chunk@.len() <= u64::MAX,
    ensures
        r == retarget_spec(mode, target as nat, before as nat, chunk@),
{
    if mode == ReadMode::Line || mode == ReadMode::LineKeep {
        let nl: Vec<u8> = vec![10u8];
        assert(nl@ =~= seq![10u8]);
        proof {
            lemma_find_from_props(chunk@, seq![10u8], 0);
        }
        let cl = chunk.len();
        match find_bytes_from(chunk, nl.as_slice(), 0) {
            Some(p) => {
                assert(occurs_at(chunk@, seq![10u8], p as int));
                before + (p as u64) + 1
            },
            None => target,
        }
    } else {
        target
    }
}

/// What a read returns and what stays buffered, given everything buffered
/// and the target: the first `min(target, len)` bytes are taken; a line
/// read drops the line feed that ends them.
pub open spec fn finish_spec(mode: ReadMode, buf: Seq<u8>, target: nat) -> (Seq<u8>, Seq<u8>) {
    let cut = if target < buf.len() {
        target as int
    } else {
        buf.len() as int
    };
    let taken = buf.take(cut);
    let result = if mode == ReadMode::Line && cut > 0 && buf[cut - 1] == 10 {
        buf.take(cut - 1)
    } else {
        taken
    };
    (result, buf.skip(cut))
}

/// Splits the buffer into the read's result and the rest kept for later.
pub fn finish_read(mode: ReadMode, buf: &[u8], target: u64) -> (r: (Vec<u8>, Vec<u8>))
    ensures
        (r.0@, r.1@) == finish_spec(mode, buf@, target as nat),
{
    let bl = buf.len();
    let cut: usize = if (target as u128) < (bl as u128) {
        target as usize
    } else {
        bl
    };
    let end = if mode == ReadMode::Line && cut > 0 && buf[cut - 1] == 10 {
        cut - 1
    } else {
        cut
    };
    let mut result: Vec<u8> = Vec::new();
    push_range(&mut result, buf, 0, end);
    let mut rest: Vec<u8> = Vec::new();
    push_range(&mut rest, buf, cut, bl);
    assert(result@ =~= finish_spec(mode, buf@, target as nat).0);
    assert(rest@ =~= finish_spec(mode, buf@, target as nat).1);
    (result, rest)
}

/// A line read on a buffer that holds a line feed returns the text before
/// the first line feed and keeps what follows it.
pub proof fn line_read_returns_first_line(buf: Seq<u8>, p: int)
    requires
        0 <= p < buf.len(),
        buf[p] == 10,
        forall|k: int| 0 <= k < p ==> buf[k] != 10,
    ensures
        finish_spec(ReadMode::Line, buf, target_spec(ReadMode::Line, buf)) == (buf.take(p), buf.skip(
            p + 1,
        )),
{
    assert(occurs_at(buf, seq![10u8], p)) by {
        assert(buf.subrange(p, p + 1) =~= seq![10u8]);
    }
    assert forall|j: int| 0 <= j < p implies !occurs_at(buf, seq![10u8], j) by {
        if occurs_at(buf, seq![10u8], j) {
            assert(buf.subrange(j, j + 1)[0] == buf[j]);
        }
    }
    crate::text::lemma_find_from_first(buf, seq![10u8], 0, p);
}

/// A line read stops at the first line feed of a chunk: in a line mode, a
/// chunk that holds a line feed moves the target to just past its first
/// line feed, so the line read holds no other; a chunk without one, or a
/// read in another mode, leaves the target as it was.
pub proof fn line_read_stops_at_first_line_feed(mode: ReadMode, target: nat, before: nat, chunk: Seq<u8>)
    ensures
        is_line_mode(mode) && (exists|k: int| 0 <= k < chunk.len() && #[trigger] chunk[k] == 10) ==> {
            let r = retarget_spec(mode, target, before, chunk);
            &&& before < r <= before + chunk.len()
            &&& chunk[r - before - 1] == 10
            &&& forall|j: int| 0 <= j < r - before - 1 ==> #[trigger] chunk[j] != 10
        },
        !(is_line_mode(mode) && (exists|k: int| 0 <= k < chunk.len() && #[trigger] chunk[k] == 10))
            ==> retarget_spec(mode, target, before, chunk) == target,
{
    lemma_find_from_props(chunk, seq![10u8], 0);
    match find_from(chunk, seq![10u8], 0) {
        Some(p) => {
            assert(chunk.subrange(p, p + 1)[0] == chunk[p]);
            assert forall|j: int| 0 <= j < p implies #[trigger] chunk[j] != 10 by {
                if chunk[j] == 10 {
                    assert(chunk.subrange(j, j + 1) =~= seq![10u8]);
                    assert(occurs_at(chunk, seq![10u8], j));
                }
            }
        },
        None => {
            assert forall|k: int| 0 <= k < chunk.len() implies #[trigger] chunk[k] != 10 by {
                if chunk[k] == 10 {
                    assert(chunk.subrange(k, k + 1) =~= seq![10u8]);
                    assert(occurs_at(chunk, seq![10u8], k));
                }
            }
        },
    }
}

} // verus!
