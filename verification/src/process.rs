//! Decisions of the child-process plugin that need no operating system:
//! reading the environment block, checking stream redirections, and the
//! steps of waiting for a child and of reading its output.

use vstd::prelude::*;
use vstd::string::StringSliceAdditionalSpecFns;
use vstd::utf8::encode_utf8;

use crate::reflow::{lemma_zero_end, zero_end};
use crate::text::{find_bytes_from, find_from, lemma_find_from_props, occurs_at, push_range};

verus! {

/// The `KEY=VALUE` entries of an environment block from byte `i` on.  The
/// block is a run of zero-terminated entries ended by an empty one; an entry
/// without `=` is skipped, and the key ends at the first `=`.
pub open spec fn env_pairs_from(b: Seq<u8>, i: int) -> Seq<(Seq<u8>, Seq<u8>)>
    decreases b.len() - i + 1,
{
    if i < 0 || i >= b.len() {
        seq![]
    } else {
        proof {
            lemma_zero_end(b, i);
        }
        let end = zero_end(b, i);
        let entry = b.subrange(i, end);
        if end <= i {
            seq![]
        } else {
            let rest = env_pairs_from(b, end + 1);
            match find_from(entry, seq![61u8], 0) {
                Some(eq) => seq![(entry.take(eq), entry.skip(eq + 1))] + rest,
                None => rest,
            }
        }
    }
}

/// Every key of an environment block is free of `=` and zero bytes, and every
/// value of zero bytes: each pair can be handed to `setenv`.
pub proof fn env_pairs_are_clean(b: Seq<u8>, i: int)
    requires
        0 <= i,
    ensures
        forall|k: int|
            0 <= k < env_pairs_from(b, i).len() ==> {
                let (key, value) = #[trigger] env_pairs_from(b, i)[k];
                (forall|j: int| 0 <= j < key.len() ==> key[j] != 61 && key[j] != 0) && (forall|
                    j: int,
                | 0 <= j < value.len() ==> value[j] != 0)
            },
    decreases b.len() - i + 1,
{
    if i < b.len() {
        lemma_zero_end(b, i);
        let end = zero_end(b, i);
        lemma_zero_free(b, i);
        if end > i {
            env_pairs_are_clean(b, end + 1);
            let entry = b.subrange(i, end);
            lemma_find_from_props(entry, seq![61u8], 0);
            let rest = env_pairs_from(b, end + 1);
            if let Some(eq) = find_from(entry, seq![61u8], 0) {
                let pair = (entry.take(eq), entry.skip(eq + 1));
                assert forall|j: int| 0 <= j < pair.0.len() implies pair.0[j] != 61 && pair.0[j]
                    != 0 by {
                    assert(pair.0[j] == entry[j]);
                    if entry[j] == 61 {
                        assert(entry.subrange(j, j + 1) =~= seq![61u8]);
                        assert(occurs_at(entry, seq![61u8], j));
                    }
                }
                assert forall|j: int| 0 <= j < pair.1.len() implies pair.1[j] != 0 by {
                    assert(pair.1[j] == entry[eq + 1 + j]);
                }
                assert(env_pairs_from(b, i) == seq![pair] + rest);
                assert forall|k: int| 0 <= k < env_pairs_from(b, i).len() implies {
                    let (key, value) = #[trigger] env_pairs_from(b, i)[k];
                    (forall|j: int| 0 <= j < key.len() ==> key[j] != 61 && key[j] != 0) && (
                    forall|j: int| 0 <= j < value.len() ==> value[j] != 0)
                } by {
                    if k > 0 {
                        assert(env_pairs_from(b, i)[k] == rest[k - 1]);
                    }
                }
            } else {
                assert(env_pairs_from(b, i) == rest);
            }
        }
    }
}

proof fn lemma_zero_free(b: Seq<u8>, i: int)
    requires
        0 <= i <= b.len(),
    ensures
        forall|j: int| i <= j < zero_end(b, i) ==> #[trigger] b[j] != 0,
    decreases b.len() - i,
{
    if i < b.len() && b[i] != 0 {
        lemma_zero_free(b, i + 1);
    }
}

/// The pairs as byte sequences.
pub open spec fn pairs_view(v: Seq<(Vec<u8>, Vec<u8>)>) -> Seq<(Seq<u8>, Seq<u8>)> {
    v.map_values(|p: (Vec<u8>, Vec<u8>)| (p.0@, p.1@))
}

fn zero_index(d: &[u8], i: usize) -> (j: usize)
    requires
        i <= d@.len(),
    ensures
        j == zero_end(d@, i as int),
{
    let mut j = i;
    while j < d.len() && d[j] != 0
        invariant
            i <= j <= d@.len(),
            zero_end(d@, i as int) == zero_end(d@, j as int),
        decreases d@.len() - j,
    {
        j = j + 1;
    }
    j
}

/// The `(key, value)` pairs of an environment block written as
/// `KEY=VALUE\0KEY=VALUE\0\0`.
pub fn parse_env_string(s: &str) -> (r: Vec<(Vec<u8>, Vec<u8>)>)
    ensures
        pairs_view(r@) == env_pairs_from(s.spec_bytes(), 0),
{
    let b = s.as_bytes();
    let bl = b.len();
    let eq_sign: Vec<u8> = vec![61u8];
    assert(eq_sign@ =~= seq![61u8]);
    let mut pairs: Vec<(Vec<u8>, Vec<u8>)> = Vec::new();
    let mut i: usize = 0;
    let mut done = false;
    while !done && i < bl
        invariant
            bl == b@.len(),
            b@ == s.spec_bytes(),
            eq_sign@ == seq![61u8],
            i <= bl + 1,
            !done ==> env_pairs_from(b@, 0) == pairs_view(pairs@) + env_pairs_from(b@, i as int),
            done ==> env_pairs_from(b@, 0) == pairs_view(pairs@),
        decreases 2 * (bl + 1 - i) + (if done {
            0int
        } else {
            1int
        }),
    {
        proof {
            lemma_zero_end(b@, i as int);
        }
        let end = zero_index(b, i);
        let ghost entry = b@.subrange(i as int, end as int);
        if end == i {
            done = true;
            assert(pairs_view(pairs@) + seq![] =~= pairs_view(pairs@));
        } else {
            let e = &b[i..end];
            assert(e@ =~= entry);
            proof {
                lemma_find_from_props(entry, seq![61u8], 0);
            }
            let ghost rest = env_pairs_from(b@, end + 1);
            let ghost before = pairs_view(pairs@);
            match find_bytes_from(e, eq_sign.as_slice(), 0) {
                Some(eq) => {
                    assert(occurs_at(entry, seq![61u8], eq as int));
                    let el = e.len();
                    let mut k: Vec<u8> = Vec::new();
                    push_range(&mut k, e, 0, eq);
                    let mut v: Vec<u8> = Vec::new();
                    push_range(&mut v, e, eq + 1, el);
                    assert(k@ =~= entry.take(eq as int));
                    assert(v@ =~= entry.skip(eq + 1));
                    pairs.push((k, v));
                    assert(pairs_view(pairs@) =~= before + seq![(entry.take(eq as int), entry.skip(eq + 1))]);
                },
                None => {},
            }
            if end == bl {
                done = true;
                assert(env_pairs_from(b@, end + 1) =~= Seq::<(Seq<u8>, Seq<u8>)>::empty());
                assert(pairs_view(pairs@) + seq![] =~= pairs_view(pairs@));
            } else {
                i = end + 1;
            }
        }
    }
    if !done {
        assert(env_pairs_from(b@, i as int) =~= Seq::<(Seq<u8>, Seq<u8>)>::empty());
    }
    pairs
}

/// The environment block written from `KEY=VALUE` entries: each entry
/// followed by a zero byte, then one more zero byte (two zero bytes for no
/// entry at all).
pub open spec fn env_block_spec(entries: Seq<Seq<u8>>) -> Seq<u8> {
    if entries.len() == 0 {
        seq![0u8, 0u8]
    } else {
        entries_then_end(entries)
    }
}

/// Each entry followed by a zero byte, then a final zero byte.
pub open spec fn entries_then_end(entries: Seq<Seq<u8>>) -> Seq<u8>
    decreases entries.len(),
{
    if entries.len() == 0 {
        seq![0u8]
    } else {
        entries[0] + seq![0u8] + entries_then_end(entries.drop_first())
    }
}

/// The environment block for these entries: joined with zero bytes and
/// ended by two.
pub fn env_block(entries: &[Vec<u8>]) -> (r: Vec<u8>)
    ensures
        r@ == env_block_spec(entries@.map_values(|e: Vec<u8>| e@)),
{
    let ghost es = entries@.map_values(|e: Vec<u8>| e@);
    let mut out: Vec<u8> = Vec::new();
    let mut i: usize = 0;
    while i < entries.len()
        invariant
            i <= entries@.len(),
            es == entries@.map_values(|e: Vec<u8>| e@),
            i > 0 ==> entries_then_end(es) == out@ + seq![0u8] + entries_then_end(es.skip(i as int)),
            i == 0 ==> out@.len() == 0,
        decreases entries@.len() - i,
    {
        let ghost before = out@;
        if i > 0 {
            out.push(0);
        }
        crate::text::push_all(&mut out, entries[i].as_slice());
        proof {
            let rest = es.skip(i as int);
            assert(rest[0] == entries@[i as int]@);
            assert(rest.drop_first() =~= es.skip(i + 1));
            if i == 0 {
                assert(es.skip(0) =~= es);
            }
        }
        i = i + 1;
        assert(entries_then_end(es) =~= out@ + seq![0u8] + entries_then_end(es.skip(i as int)));
    }
    out.push(0);
    out.push(0);
    if i > 0 {
        assert(es.skip(i as int) =~= Seq::<Seq<u8>>::empty());
    }
    assert(out@ =~= env_block_spec(es));
    out
}

proof fn lemma_zero_end_shift(p: Seq<u8>, q: Seq<u8>, j: int)
    requires
        0 <= j <= q.len(),
    ensures
        zero_end(p + q, p.len() + j) == p.len() + zero_end(q, j),
    decreases q.len() - j,
{
    if j < q.len() {
        assert((p + q)[p.len() + j] == q[j]);
        if q[j] != 0 {
            lemma_zero_end_shift(p, q, j + 1);
        }
    }
}

/// The entries of a block after its first `p.len()` bytes are those of the
/// rest.
proof fn lemma_env_pairs_shift(p: Seq<u8>, q: Seq<u8>, j: int)
    requires
        0 <= j <= q.len() + 1,
    ensures
        env_pairs_from(p + q, p.len() + j) == env_pairs_from(q, j),
    decreases q.len() - j + 1,
{
    if j < q.len() {
        lemma_zero_end(q, j);
        lemma_zero_end_shift(p, q, j);
        let end = zero_end(q, j);
        assert((p + q).subrange(p.len() + j, p.len() + end) =~= q.subrange(j, end));
        if end > j {
            lemma_env_pairs_shift(p, q, end + 1);
        }
    }
}

/// An entry that reads back as one pair: not empty, no zero byte, and an
/// `=` in it.
pub open spec fn is_env_entry(e: Seq<u8>) -> bool {
    &&& e.len() > 0
    &&& forall|k: int| 0 <= k < e.len() ==> #[trigger] e[k] != 0
    &&& exists|k: int| 0 <= k < e.len() && #[trigger] e[k] == 61
}

/// The pair an entry reads back as: the key before its first `=`, the value
/// after it.
pub open spec fn entry_pair(e: Seq<u8>) -> (Seq<u8>, Seq<u8>) {
    match find_from(e, seq![61u8], 0) {
        Some(eq) => (e.take(eq), e.skip(eq + 1)),
        None => (e, seq![]),
    }
}

proof fn lemma_entries_read_back(es: Seq<Seq<u8>>)
    requires
        forall|k: int| 0 <= k < es.len() ==> is_env_entry(#[trigger] es[k]),
    ensures
        env_pairs_from(entries_then_end(es), 0) == es.map_values(|e: Seq<u8>| entry_pair(e)),
    decreases es.len(),
{
    let b = entries_then_end(es);
    if es.len() == 0 {
        assert(zero_end(b, 0) == 0);
        assert(es.map_values(|e: Seq<u8>| entry_pair(e)) =~= Seq::<(Seq<u8>, Seq<u8>)>::empty());
    } else {
        let e = es[0];
        assert(is_env_entry(e));
        let rest = es.drop_first();
        assert forall|k: int| 0 <= k < rest.len() implies is_env_entry(#[trigger] rest[k]) by {
            assert(rest[k] == es[k + 1]);
        }
        lemma_entries_read_back(rest);
        let tail = entries_then_end(rest);
        let head = e + seq![0u8];
        assert(b =~= head + tail);
        lemma_zero_end_shift(e, seq![0u8] + tail, 0);
        assert(zero_end(seq![0u8] + tail, 0) == 0);
        assert(forall|k: int| 0 <= k < e.len() ==> b[k] == e[k]);
        lemma_zero_end(b, 0);
        lemma_zero_free(b, 0);
        assert(zero_end(b, 0) == e.len()) by {
            assert(e + (seq![0u8] + tail) =~= b);
        }
        assert(b.subrange(0, e.len() as int) =~= e);
        lemma_env_pairs_shift(head, tail, 0);
        assert(env_pairs_from(b, e.len() + 1int) == env_pairs_from(tail, 0));
        lemma_find_from_props(e, seq![61u8], 0);
        let k = choose|k: int| 0 <= k < e.len() && #[trigger] e[k] == 61;
        assert(occurs_at(e, seq![61u8], k)) by {
            assert(e.subrange(k, k + 1) =~= seq![61u8]);
        }
        assert(find_from(e, seq![61u8], 0) is Some);
        assert(es.map_values(|e: Seq<u8>| entry_pair(e)) =~= seq![entry_pair(e)] + rest.map_values(
            |e: Seq<u8>| entry_pair(e),
        ));
    }
}

/// What the environment block holds reads back: each entry gives the pair of
/// its key (before its first `=`) and value.
pub proof fn env_block_reads_back(es: Seq<Seq<u8>>)
    requires
        forall|k: int| 0 <= k < es.len() ==> is_env_entry(#[trigger] es[k]),
    ensures
        env_pairs_from(env_block_spec(es), 0) == es.map_values(|e: Seq<u8>| entry_pair(e)),
{
    if es.len() == 0 {
        let b = env_block_spec(es);
        assert(zero_end(b, 0) == 0);
        assert(es.map_values(|e: Seq<u8>| entry_pair(e)) =~= Seq::<(Seq<u8>, Seq<u8>)>::empty());
    } else {
        lemma_entries_read_back(es);
    }
}

/// `n` backslashes.
pub open spec fn backslashes(n: nat) -> Seq<u8> {
    Seq::new(n, |i: int| 92u8)
}

/// An argument from byte `i` on, written for a Windows command line when
/// `bs` backslashes are pending: backslashes before a `"` are doubled and
/// the `"` escaped; other backslashes stay as they are.
pub open spec fn arg_from(v: Seq<u8>, i: int, bs: nat) -> Seq<u8>
    decreases v.len() - i,
{
    if i < 0 || i >= v.len() {
        backslashes(bs)
    } else if v[i] == 92 {
        arg_from(v, i + 1, bs + 1)
    } else if v[i] == 34 {
        backslashes(2 * bs + 1) + seq![34u8] + arg_from(v, i + 1, 0)
    } else {
        backslashes(bs) + seq![v[i]] + arg_from(v, i + 1, 0)
    }
}

/// An argument is quoted when it is empty or holds a tab, vertical tab,
/// carriage return, line feed or space.
pub open spec fn needs_quotes(v: Seq<u8>) -> bool {
    v.len() == 0 || exists|k: int|
        0 <= k < v.len() && (#[trigger] v[k] == 9 || v[k] == 11 || v[k] == 13 || v[k] == 10 || v[k]
            == 32)
}

/// One argument as written on a Windows command line.
pub open spec fn quote_arg_spec(v: Seq<u8>) -> Seq<u8> {
    if needs_quotes(v) {
        seq![34u8] + arg_from(v, 0, 0) + seq![34u8]
    } else {
        arg_from(v, 0, 0)
    }
}

fn push_backslashes(out: &mut Vec<u8>, n: usize)
    ensures
        final(out)@ == old(out)@ + backslashes(n as nat),
{
    let mut k: usize = 0;
    while k < n
        invariant
            k <= n,
            out@ == old(out)@ + backslashes(k as nat),
        decreases n - k,
    {
        out.push(92);
        k = k + 1;
        assert(out@ =~= old(out)@ + backslashes(k as nat));
    }
}

/// One argument written for a Windows command line.
pub fn quote_windows_arg(arg: &str) -> (r: Vec<u8>)
    ensures
        r@ == quote_arg_spec(arg.spec_bytes()),
{
    let v = arg.as_bytes();
    let mut quoted = v.len() == 0;
    let mut k: usize = 0;
    while k < v.len() && !quoted
        invariant
            k <= v@.len(),
            quoted == (v@.len() == 0 || exists|j: int|
                0 <= j < k && (#[trigger] v@[j] == 9 || v@[j] == 11 || v@[j] == 13 || v@[j] == 10
                    || v@[j] == 32)),
        decreases v@.len() - k,
    {
        let c = v[k];
        if c == 9 || c == 11 || c == 13 || c == 10 || c == 32 {
            quoted = true;
        }
        k = k + 1;
    }
    assert(quoted == needs_quotes(v@));
    let mut out: Vec<u8> = Vec::new();
    if quoted {
        out.push(34);
    }
    let ghost lead = out@;
    let mut bs: usize = 0;
    let mut i: usize = 0;
    while i < v.len()
        invariant
            i <= v@.len(),
            bs <= i,
            lead + arg_from(v@, 0, 0) == out@ + arg_from(v@, i as int, bs as nat),
        decreases v@.len() - i,
    {
        let c = v[i];
        let ghost before = out@;
        let ghost i0 = i as int;
        let ghost bs0 = bs as nat;
        if c == 92 {
            bs = bs + 1;
        } else if c == 34 {
            push_backslashes(&mut out, bs);
            push_backslashes(&mut out, bs);
            out.push(92);
            out.push(34);
            bs = 0;
            assert(backslashes(bs0) + backslashes(bs0) + seq![92u8] =~= backslashes(2 * bs0 + 1));
        } else {
            push_backslashes(&mut out, bs);
            out.push(c);
            bs = 0;
        }
        i = i + 1;
        assert(before + arg_from(v@, i0, bs0) =~= out@ + arg_from(v@, i as int, bs as nat));
    }
    push_backslashes(&mut out, bs);
    if quoted {
        out.push(34);
    }
    assert(out@ =~= quote_arg_spec(v@));
    out
}

/// Arguments written one after another, separated by single spaces.
pub open spec fn join_args(args: Seq<Seq<u8>>) -> Seq<u8>
    decreases args.len(),
{
    if args.len() == 0 {
        seq![]
    } else if args.len() == 1 {
        quote_arg_spec(args[0])
    } else {
        quote_arg_spec(args[0]) + seq![32u8] + join_args(args.drop_first())
    }
}

/// The Windows command line for a command given as a list of arguments.
pub fn windows_command_line(args: &[String]) -> (r: Vec<u8>)
    ensures
        r@ == join_args(args@.map_values(|a: String| encode_utf8(a@))),
{
    let ghost all = args@.map_values(|a: String| encode_utf8(a@));
    let mut out: Vec<u8> = Vec::new();
    let mut i: usize = 0;
    assert(all.skip(0) =~= all);
    while i < args.len()
        invariant
            i <= args@.len(),
            all == args@.map_values(|a: String| encode_utf8(a@)),
            i == 0 ==> out@.len() == 0,
            i > 0 && i < args@.len() ==> join_args(all) == out@ + seq![32u8] + join_args(
                all.skip(i as int),
            ),
            i == 0 ==> join_args(all) == join_args(all.skip(0)),
            i == args@.len() && i > 0 ==> join_args(all) == out@,
        decreases args@.len() - i,
    {
        let ghost before = out@;
        let ghost rest = all.skip(i as int);
        assert(rest[0] == encode_utf8(args@[i as int]@));
        assert(rest.drop_first() =~= all.skip(i + 1));
        if i > 0 {
            out.push(32);
        }
        let q = quote_windows_arg(args[i].as_str());
        crate::text::push_all(&mut out, q.as_slice());
        i = i + 1;
        if i < args.len() {
            assert(join_args(rest) =~= quote_arg_spec(rest[0]) + seq![32u8] + join_args(
                all.skip(i as int),
            ));
        } else {
            assert(join_args(rest) =~= quote_arg_spec(rest[0]));
        }
    }
    if args.len() == 0 {
        assert(join_args(all) =~= Seq::<u8>::empty());
    }
    out
}

/// Redirection codes a stream may be given: its own number (0, 1, 2), the
/// default (-1), discarding (-2) or the parent's stream (-3).
pub open spec fn redirect_ok(code: i32) -> bool {
    -3 <= code <= 2
}

/// Whether all three redirections are supported; the caller refuses the
/// start of the process otherwise.
pub fn redirects_supported(codes: [i32; 3]) -> (r: bool)
    ensures
        r == (redirect_ok(codes[0]) && redirect_ok(codes[1]) && redirect_ok(codes[2])),
{
    let mut k: usize = 0;
    while k < 3
        invariant
            k <= 3,
            forall|j: int| 0 <= j < k ==> redirect_ok(#[trigger] codes[j]),
        decreases 3 - k,
    {
        if !(-3 <= codes[k] && codes[k] <= 2) {
            return false;
        }
        k = k + 1;
    }
    true
}

/// The wait that a poll performs: `-1` stands for the process's own
/// deadline; other values are used as given.
pub fn effective_timeout(timeout_ms: i32, deadline: i32) -> (r: i32)
    ensures
        r == (if timeout_ms == -1 {
            deadline
        } else {
            timeout_ms
        }),
{
    if timeout_ms == -1 {
        deadline
    } else {
        timeout_ms
    }
}

/// What one round of waiting for a child leads to.
#[derive(PartialEq, Eq, Structural, Debug, Clone, Copy)]
pub enum PollStep {
    /// The child is gone; its return code is known when `Some`.
    Exited(Option<i32>),
    /// Stop waiting; the child still runs.
    GiveUp,
    /// Wait again, sleeping 5 ms first when `true`.
    Again(bool),
}

/// One round of the wait loop.  `waited` is what `waitpid` returned (0 while
/// the child runs), `exit_code` the child's code when it exited normally,
/// `wait_ms` the effective timeout (0: do not wait, -2: no limit) and
/// `elapsed_ms` the time spent so far.
pub fn poll_step(waited: i32, exit_code: Option<i32>, wait_ms: i32, elapsed_ms: i32) -> (r:
    PollStep)
    ensures
        waited != 0 ==> r == PollStep::Exited(
            if waited > 0 {
                Some(
                    match exit_code {
                        Some(c) => c,
                        None => -1i32,
                    },
                )
            } else {
                None
            },
        ),
        waited == 0 && wait_ms == 0 ==> r == PollStep::GiveUp,
        waited == 0 && wait_ms != 0 && wait_ms != -2 && elapsed_ms >= wait_ms ==> r
            == PollStep::GiveUp,
        waited == 0 && wait_ms != 0 && (wait_ms == -2 || elapsed_ms < wait_ms) ==> r
            == PollStep::Again(wait_ms >= 5),
{
    if waited != 0 {
        if waited > 0 {
            let code = match exit_code {
                Some(c) => c,
                None => -1,
            };
            return PollStep::Exited(Some(code));
        }
        return PollStep::Exited(None);
    }
    if wait_ms == 0 {
        return PollStep::GiveUp;
    }
    if wait_ms != -2 && elapsed_ms >= wait_ms {
        return PollStep::GiveUp;
    }
    PollStep::Again(wait_ms >= 5)
}

/// What one `read` on a child's pipe leads to.
#[derive(PartialEq, Eq, Structural, Debug, Clone, Copy)]
pub enum ReadStep {
    /// Bytes arrived; keep reading while room is left.
    Got(usize),
    /// End of file: close this end and return what was read.
    Eof,
    /// No data now: return what was read.
    Pause,
    /// A real error: terminate the child and return nothing.
    Fail,
}

/// One round of the read loop: `ret` is what `read` returned and
/// `would_block` whether its error was `EAGAIN` or `EWOULDBLOCK`.
pub fn read_step(ret: isize, would_block: bool) -> (r: ReadStep)
    ensures
        ret > 0 ==> r == ReadStep::Got(ret as usize),
        ret == 0 ==> r == ReadStep::Eof,
        ret < 0 && would_block ==> r == ReadStep::Pause,
        ret < 0 && !would_block ==> r == ReadStep::Fail,
{
    if ret > 0 {
        ReadStep::Got(ret as usize)
    } else if ret == 0 {
        ReadStep::Eof
    } else if would_block {
        ReadStep::Pause
    } else {
        ReadStep::Fail
    }
}

/// Whether a stream number may be read (stdout 1 or stderr 2).
pub fn readable_stream(stream: i32) -> (r: bool)
    ensures
        r == (stream == 1 || stream == 2),
{
    stream == 1 || stream == 2
}

/// Whether a stream number may be closed (0, 1 or 2).
pub fn closable_stream(stream: i32) -> (r: bool)
    ensures
        r == (0 <= stream <= 2),
{
    0 <= stream && stream <= 2
}

} // verus!
