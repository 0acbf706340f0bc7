//! The two-way swap of project replace: every match of A becomes the
//! replacement text and every match of B becomes A, without one rewrite
//! seeing the output of the other.  A placeholder that does not occur in
//! the text keeps the two apart.

use vstd::prelude::*;
use vstd::set_lib::{lemma_int_range, lemma_len_subset, set_int_range};
use vstd::string::StringSliceAdditionalSpecFns;
use vstd::utf8::{
    decode_utf8, decode_utf8_encode_utf8, encode_utf8, encode_utf8_decode_utf8,
    encode_utf8_valid_utf8, valid_utf8, valid_utf8_concat,
};

use crate::search::{
    pcre_compiles, regex_pattern, replace_all_plain, replace_all_regex, replace_plain_from,
    replace_regex_from, search_bytes, ReplaceError,
};
use crate::text::{
    byte_boundary, find_bytes_from, find_from, lemma_after_ascii_boundary, lemma_find_from_first,
    lemma_find_from_props, lemma_valid_start_boundary, lemma_ascii_valid, lemma_valid_subrange, occurs_at, push_all, utf8_to_string,
    push_range,
};

verus! {

pub open spec fn pow16(w: nat) -> nat
    decreases w,
{
    if w == 0 {
        1
    } else {
        16 * pow16((w - 1) as nat)
    }
}

/// Lower-case hexadecimal digit.
pub open spec fn hex_lower(n: nat) -> u8 {
    if n < 10 {
        (48 + n) as u8
    } else {
        (87 + n) as u8
    }
}

/// The last `w` lower-case hexadecimal digits of `c`, zero-padded.
pub open spec fn hex_fixed(c: nat, w: nat) -> Seq<u8>
    decreases w,
{
    if w == 0 {
        seq![]
    } else {
        hex_fixed(c / 16, (w - 1) as nat) + seq![hex_lower(c % 16)]
    }
}

/// `__LITE_ANVIL_SWAP_` followed by 16 hex digits of `c` and `__`.
pub open spec fn placeholder_spec(c: nat) -> Seq<u8> {
    seq![95u8, 95, 76, 73, 84, 69, 95, 65, 78, 86, 73, 76, 95, 83, 87, 65, 80, 95] + hex_fixed(
        c,
        16,
    ) + seq![95u8, 95]
}

pub open spec fn contains_bytes(h: Seq<u8>, n: Seq<u8>) -> bool {
    find_from(h, n, 0) is Some
}

/// `k` is the first counter from `salt` on whose placeholder is absent.
pub open spec fn is_first_free(content: Seq<u8>, salt: nat, k: nat) -> bool {
    &&& salt <= k
    &&& !contains_bytes(content, placeholder_spec(k))
    &&& forall|j: nat| salt <= j < k ==> contains_bytes(content, placeholder_spec(j))
}

/// The placeholder chosen for `content`, counting up from `salt`.
pub open spec fn swap_placeholder(content: Seq<u8>, salt: nat) -> Seq<u8> {
    placeholder_spec(choose|k: nat| is_first_free(content, salt, k))
}

proof fn lemma_hex_fixed(c: nat, d: nat, w: nat)
    ensures
        hex_fixed(c, w).len() == w,
        forall|i: int| 0 <= i < w ==> (48 <= #[trigger] hex_fixed(c, w)[i] <= 57 || 97 <= hex_fixed(
            c,
            w,
        )[i] <= 102),
        c < pow16(w) && d < pow16(w) && hex_fixed(c, w) == hex_fixed(d, w) ==> c == d,
    decreases w,
{
    if w > 0 {
        let w1 = (w - 1) as nat;
        lemma_hex_fixed(c / 16, d / 16, w1);
        let hc = hex_fixed(c, w);
        assert(hc.drop_last() =~= hex_fixed(c / 16, w1));
        assert forall|i: int| 0 <= i < w implies (48 <= #[trigger] hex_fixed(c, w)[i] <= 57 || 97
            <= hex_fixed(c, w)[i] <= 102) by {
            if i < w1 {
                assert(hc[i] == hex_fixed(c / 16, w1)[i]);
            }
        }
        if c < pow16(w) && d < pow16(w) && hex_fixed(c, w) == hex_fixed(d, w) {
            let hd = hex_fixed(d, w);
            assert(hd.drop_last() =~= hex_fixed(d / 16, w1));
            assert(hc.last() == hd.last());
            assert(c % 16 == d % 16);
            assert(c / 16 < pow16(w1)) by (nonlinear_arith)
                requires
                    c < 16 * pow16(w1),
            ;
            assert(d / 16 < pow16(w1)) by (nonlinear_arith)
                requires
                    d < 16 * pow16(w1),
            ;
            assert(c / 16 == d / 16);
            assert(c == 16 * (c / 16) + c % 16) by (nonlinear_arith);
            assert(d == 16 * (d / 16) + d % 16) by (nonlinear_arith);
        }
    }
}

proof fn lemma_pow16_16()
    ensures
        usize::MAX < pow16(16),
{
    reveal_with_fuel(pow16, 17);
    assert(pow16(16) == 0x1_0000_0000_0000_0000);
}

/// Different counters give different placeholders.
proof fn lemma_placeholder_injective(c: nat, d: nat)
    requires
        c <= usize::MAX,
        d <= usize::MAX,
        placeholder_spec(c) == placeholder_spec(d),
    ensures
        c == d,
{
    lemma_pow16_16();
    lemma_hex_fixed(c, d, 16);
    lemma_hex_fixed(d, c, 16);
    assert(placeholder_spec(c).subrange(18, 34) =~= hex_fixed(c, 16));
    assert(placeholder_spec(d).subrange(18, 34) =~= hex_fixed(d, 16));
}

proof fn lemma_placeholder_props(c: nat)
    ensures
        placeholder_spec(c).len() == 36,
        forall|i: int| 0 <= i < 36 ==> #[trigger] placeholder_spec(c)[i] < 128,
        placeholder_spec(c)[0] == 95,
        placeholder_spec(c)[35] == 95,
{
    lemma_hex_fixed(c, c, 16);
    let p = placeholder_spec(c);
    assert forall|i: int| 0 <= i < 36 implies #[trigger] placeholder_spec(c)[i] < 128 by {
        if 18 <= i < 34 {
            assert(p[i] == hex_fixed(c, 16)[i - 18]);
        }
    }
}

proof fn lemma_first_free_unique(content: Seq<u8>, salt: nat, k: nat)
    requires
        is_first_free(content, salt, k),
    ensures
        swap_placeholder(content, salt) == placeholder_spec(k),
{
    let k2 = choose|k2: nat| is_first_free(content, salt, k2);
    assert(is_first_free(content, salt, k2));
    if k2 < k {
        assert(contains_bytes(content, placeholder_spec(k2)));
    } else if k < k2 {
        assert(contains_bytes(content, placeholder_spec(k)));
    }
}

fn push_hex_fixed(out: &mut Vec<u8>, c: usize, w: usize)
    ensures
        final(out)@ == old(out)@ + hex_fixed(c as nat, w as nat),
    decreases w,
{
    if w > 0 {
        push_hex_fixed(out, c / 16, w - 1);
        let d = (c % 16) as u8;
        if d < 10 {
            out.push(48 + d);
        } else {
            out.push(87 + d);
        }
    }
}

fn placeholder(counter: usize) -> (r: Vec<u8>)
    ensures
        r@ == placeholder_spec(counter as nat),
{
    let prefix: [u8; 18] = [95, 95, 76, 73, 84, 69, 95, 65, 78, 86, 73, 76, 95, 83, 87, 65, 80, 95];
    let mut out: Vec<u8> = Vec::new();
    push_all(&mut out, prefix.as_slice());
    push_hex_fixed(&mut out, counter, 16);
    out.push(95);
    out.push(95);
    assert(out@ =~= placeholder_spec(counter as nat));
    out
}

/// A placeholder that does not occur in `content`: the first counter from
/// `salt` on whose `__LITE_ANVIL_SWAP_<16 hex digits>__` is absent.
pub fn generate_placeholder(content: &str, salt: usize) -> (r: Vec<u8>)
    requires
        salt <= usize::MAX - content.spec_bytes().len(),
    ensures
        r@ == swap_placeholder(content.spec_bytes(), salt as nat),
        !contains_bytes(content.spec_bytes(), r@),
{
    let c = content.as_bytes();
    let ghost n = c@.len() as int;
    let mut counter = salt;
    let ghost mut owner: Map<int, nat> = Map::empty();
    proof {
        lemma_int_range(0, n);
    }
    loop
        invariant
            c@ == content.spec_bytes(),
            n == c@.len(),
            salt <= counter <= usize::MAX,
            salt + n <= usize::MAX,
            owner.dom().finite(),
            owner.dom().len() == counter - salt,
            owner.dom().subset_of(set_int_range(0, n)),
            set_int_range(0, n).finite(),
            set_int_range(0, n).len() == n,
            forall|p: int|
                #![trigger owner[p]]
                owner.dom().contains(p) ==> salt <= owner[p] < counter && occurs_at(
                    c@,
                    placeholder_spec(owner[p]),
                    p,
                ),
            forall|j: nat| salt <= j < counter ==> contains_bytes(c@, placeholder_spec(j)),
        decreases n - (counter - salt),
    {
        let ph = placeholder(counter);
        proof {
            lemma_find_from_props(c@, ph@, 0);
            lemma_placeholder_props(counter as nat);
        }
        match find_bytes_from(c, ph.as_slice(), 0) {
            None => {
                proof {
                    assert(is_first_free(c@, salt as nat, counter as nat));
                    lemma_first_free_unique(c@, salt as nat, counter as nat);
                }
                return ph;
            },
            Some(p) => {
                proof {
                    if owner.dom().contains(p as int) {
                        let d = owner[p as int];
                        lemma_placeholder_props(d);
                        assert(c@.subrange(p as int, p + 36) == placeholder_spec(d));
                        lemma_placeholder_injective(d, counter as nat);
                    }
                    let old_dom = owner.dom();
                    owner = owner.insert(p as int, counter as nat);
                    assert(owner.dom() =~= old_dom.insert(p as int));
                    lemma_len_subset(owner.dom(), set_int_range(0, n));
                }
                counter = counter + 1;
            },
        }
    }
}

/// The kinds of `ReplaceError`, without the PCRE2 error value.
pub enum ReplaceErrorKind {
    Regex,
    BadCut,
    MissingSwapQuery,
}

pub open spec fn error_kind(e: ReplaceError) -> ReplaceErrorKind {
    match e {
        ReplaceError::Regex(_) => ReplaceErrorKind::Regex,
        ReplaceError::BadCut => ReplaceErrorKind::BadCut,
        ReplaceError::MissingSwapQuery => ReplaceErrorKind::MissingSwapQuery,
    }
}

/// Replace-all of one query in `c`, by regex or plain text: the new text and
/// the count, or the kind of failure.
pub open spec fn matcher_spec(
    c: Seq<char>,
    q: Seq<char>,
    regex: bool,
    nc: bool,
    rep: Seq<u8>,
) -> Result<(Seq<u8>, nat), ReplaceErrorKind> {
    if regex {
        if !pcre_compiles(regex_pattern(q, nc)) {
            Err(ReplaceErrorKind::Regex)
        } else {
            match replace_regex_from(regex_pattern(q, nc), encode_utf8(c), rep, 1) {
                Some(x) => Ok(x),
                None => Err(ReplaceErrorKind::BadCut),
            }
        }
    } else {
        match replace_plain_from(encode_utf8(c), search_bytes(c, nc), search_bytes(q, nc), rep, 1) {
            Some(x) => Ok(x),
            None => Err(ReplaceErrorKind::BadCut),
        }
    }
}

/// Replace-all by regex or plain text, as `matcher_spec` states it.
pub fn replace_with_matcher(
    content: &str,
    query: &str,
    regex_mode: bool,
    no_case: bool,
    replace: &str,
) -> (r: Result<(Vec<u8>, usize), ReplaceError>)
    requires
        !regex_mode ==> query@.len() > 0,
        content.spec_bytes().len() <= isize::MAX,
        query.spec_bytes().len() <= isize::MAX,
    ensures
        match matcher_spec(content@, query@, regex_mode, no_case, replace.spec_bytes()) {
            Ok((t, k)) => r matches Ok((out, n)) && out@ == t && n == k,
            Err(kind) => r matches Err(e) && error_kind(e) == kind,
        },
        r matches Ok((out, n)) ==> valid_utf8(out@) && n <= content.spec_bytes().len(),
{
    if regex_mode {
        replace_all_regex(content, query, replace, no_case)
    } else {
        match replace_all_plain(content, query, replace, no_case) {
            Ok(x) => Ok(x),
            Err(_) => Err(ReplaceError::BadCut),
        }
    }
}

/// `str::replace` on bytes: every non-overlapping occurrence of `n` in `h`,
/// left to right, becomes `r`.
pub open spec fn replace_bytes_spec(h: Seq<u8>, n: Seq<u8>, r: Seq<u8>) -> Seq<u8>
    decreases h.len(),
{
    if n.len() == 0 {
        h
    } else {
        match find_from(h, n, 0) {
            None => h,
            Some(i) => {
                proof {
                    lemma_find_from_props(h, n, 0);
                }
                h.take(i) + r + replace_bytes_spec(h.skip(i + n.len()), n, r)
            },
        }
    }
}

/// Replaces every occurrence of `needle` (non-empty) in `hay` with `rep`.
pub fn replace_bytes(hay: &[u8], needle: &[u8], rep: &[u8]) -> (out: Vec<u8>)
    requires
        needle@.len() > 0,
    ensures
        out@ == replace_bytes_spec(hay@, needle@, rep@),
{
    let mut out: Vec<u8> = Vec::new();
    let mut pos: usize = 0;
    assert(hay@.skip(0) =~= hay@);
    loop
        invariant
            pos <= hay@.len(),
            needle@.len() > 0,
            replace_bytes_spec(hay@, needle@, rep@) == out@ + replace_bytes_spec(
                hay@.skip(pos as int),
                needle@,
                rep@,
            ),
        decreases hay@.len() - pos,
    {
        let rest = &hay[pos..hay.len()];
        assert(rest@ =~= hay@.skip(pos as int));
        proof {
            lemma_find_from_props(rest@, needle@, 0);
        }
        match find_bytes_from(rest, needle, 0) {
            None => {
                push_range(&mut out, hay, pos, hay.len());
                assert(hay@.subrange(pos as int, hay@.len() as int) =~= rest@);
                return out;
            },
            Some(i) => {
                let ghost before = out@;
                push_range(&mut out, hay, pos, pos + i);
                push_all(&mut out, rep);
                assert(hay@.subrange(pos as int, pos + i) =~= rest@.take(i as int));
                assert(rest@.skip(i + needle@.len()) =~= hay@.skip(pos + i + needle@.len()));
                assert(out@ =~= before + (rest@.take(i as int) + rep@));
                pos = pos + i + needle.len();
            },
        }
    }
}

/// The B pass of a swap over the text after the A pass: the pieces between
/// placeholders are rewritten one by one, left to right, and the
/// placeholders kept.
pub open spec fn swap_segments(
    a: Seq<u8>,
    ph: Seq<u8>,
    qb: Seq<char>,
    b_regex: bool,
    b_nc: bool,
    rep_b: Seq<u8>,
) -> Result<(Seq<u8>, nat), ReplaceErrorKind>
    decreases a.len(),
{
    if ph.len() == 0 {
        Err(ReplaceErrorKind::BadCut)
    } else {
        match find_from(a, ph, 0) {
            None => matcher_spec(decode_utf8(a), qb, b_regex, b_nc, rep_b),
            Some(i) => match matcher_spec(decode_utf8(a.take(i)), qb, b_regex, b_nc, rep_b) {
                Err(k) => Err(k),
                Ok((t, n)) => {
                    proof {
                        lemma_find_from_props(a, ph, 0);
                    }
                    match swap_segments(a.skip(i + ph.len()), ph, qb, b_regex, b_nc, rep_b) {
                        Err(k) => Err(k),
                        Ok((t2, n2)) => Ok((t + ph + t2, n + n2)),
                    }
                },
            },
        }
    }
}

/// The whole swap: A matches become a fresh placeholder, B matches in the
/// pieces between become A's text, then the placeholders become the
/// replacement.  The count is the A count plus the B count.
pub open spec fn swap_spec(
    content: Seq<char>,
    query: Seq<char>,
    replace: Seq<u8>,
    no_case: bool,
    query_b: Option<Seq<char>>,
    b_regex: bool,
    b_case: bool,
    a_regex: bool,
) -> Result<(Seq<u8>, nat), ReplaceErrorKind> {
    match query_b {
        None => Err(ReplaceErrorKind::MissingSwapQuery),
        Some(qb) => {
            let ph = swap_placeholder(encode_utf8(content), encode_utf8(content).len());
            match matcher_spec(content, query, a_regex, no_case, ph) {
                Err(k) => Err(k),
                Ok((after, ka)) => match swap_segments(
                    after,
                    ph,
                    qb,
                    b_regex,
                    !b_case,
                    encode_utf8(query),
                ) {
                    Err(k) => Err(k),
                    Ok((mid, kb)) => Ok((replace_bytes_spec(mid, ph, replace), ka + kb)),
                },
            }
        },
    }
}

/// How project replace rewrites each file.
pub enum ReplaceMode {
    Plain,
    Regex,
    Swap,
}

/// The options of a project replace, without the file list.
pub struct ReplaceOpts {
    pub mode: ReplaceMode,
    pub query: String,
    pub replace: String,
    pub no_case: bool,
    pub backup_originals: bool,
    pub query_b: Option<String>,
    pub query_b_regex: bool,
    pub query_b_case: bool,
    pub query_a_regex: bool,
}

impl ReplaceOpts {
    pub open spec fn query_b_view(&self) -> Option<Seq<char>> {
        match self.query_b {
            Some(q) => Some(q@),
            None => None,
        }
    }

    /// Where a B query is given (without one the swap fails at once):
    /// lengths that make every intermediate text and count fit, and
    /// non-empty plain-text queries (an empty one never stops matching).
    pub open spec fn swap_ready(&self) -> bool {
        match self.query_b {
            Some(q) => {
                &&& encode_utf8(self.query@).len() <= isize::MAX
                &&& (!self.query_a_regex ==> self.query@.len() > 0)
                &&& encode_utf8(q@).len() <= isize::MAX
                &&& (!self.query_b_regex ==> q@.len() > 0)
            },
            None => true,
        }
    }
}

/// Runs the B pass on one piece of the text.
fn replace_piece(piece: &[u8], qb: &str, b_regex: bool, b_nc: bool, rep: &str) -> (r: Result<
    (Vec<u8>, usize),
    ReplaceError,
>)
    requires
        valid_utf8(piece@),
        piece@.len() <= isize::MAX,
        !b_regex ==> qb@.len() > 0,
        encode_utf8(qb@).len() <= isize::MAX,
    ensures
        match matcher_spec(decode_utf8(piece@), qb@, b_regex, b_nc, encode_utf8(rep@)) {
            Ok((t, k)) => r matches Ok((out, n)) && out@ == t && n == k,
            Err(kind) => r matches Err(e) && error_kind(e) == kind,
        },
        r matches Ok((out, n)) ==> n <= piece@.len(),
{
    let text = utf8_to_string(piece);
    proof {
        decode_utf8_encode_utf8(piece@);
    }
    replace_with_matcher(text.as_str(), qb, b_regex, b_nc, rep)
}

/// Swaps A and B in `content` (see `swap_spec`).
#[verifier::rlimit(100)]
#[verifier::spinoff_prover]
pub fn swap_content(opts: &ReplaceOpts, content: &str) -> (r: Result<(Vec<u8>, usize), ReplaceError>)
    requires
        opts.swap_ready(),
        content.spec_bytes().len() <= isize::MAX,
    ensures
        match swap_spec(
            content@,
            opts.query@,
            encode_utf8(opts.replace@),
            opts.no_case,
            opts.query_b_view(),
            opts.query_b_regex,
            opts.query_b_case,
            opts.query_a_regex,
        ) {
            Ok((t, k)) => r matches Ok((out, n)) && out@ == t && n == k,
            Err(kind) => r matches Err(e) && error_kind(e) == kind,
        },
{
    let query_b = match &opts.query_b {
        Some(q) => q,
        None => {
            return Err(ReplaceError::MissingSwapQuery);
        },
    };
    let c = content.as_bytes();
    let placeholder = generate_placeholder(content, c.len());
    proof {
        lemma_placeholder_props(choose|k: nat| is_first_free(c@, c@.len(), k));
    }
    proof {
        lemma_ascii_valid(placeholder@);
    }
    let ph_str = utf8_to_string(placeholder.as_slice());
    proof {
        decode_utf8_encode_utf8(placeholder@);
    }
    let (after_a, count_a) = match replace_with_matcher(
        content,
        opts.query.as_str(),
        opts.query_a_regex,
        opts.no_case,
        ph_str.as_str(),
    ) {
        Ok(x) => x,
        Err(e) => {
            return Err(e);
        },
    };
    let after_s = utf8_to_string(after_a.as_slice());
    let after = after_s.as_str().as_bytes();
    proof {
        decode_utf8_encode_utf8(after_a@);
    }
    let ghost full_b = swap_segments(
        after@,
        placeholder@,
        query_b@,
        opts.query_b_regex,
        !opts.query_b_case,
        encode_utf8(opts.query@),
    );
    let mut parts: Vec<u8> = Vec::new();
    let mut count_b: usize = 0;
    let mut pos: usize = 0;
    assert(after@.skip(0) =~= after@);
    proof {
        lemma_valid_start_boundary(after@);
    }
    loop
        invariant
            after@ == after_a@,
            valid_utf8(after@),
            after@.len() <= isize::MAX,
            placeholder@.len() == 36,
            placeholder@[0] == 95,
            placeholder@[35] == 95,
            pos <= after@.len(),
            count_b <= pos,
            byte_boundary(after@, pos as int),
            full_b == swap_segments(
                after@,
                placeholder@,
                query_b@,
                opts.query_b_regex,
                !opts.query_b_case,
                encode_utf8(opts.query@),
            ),
            full_b == match swap_segments(
                after@.skip(pos as int),
                placeholder@,
                query_b@,
                opts.query_b_regex,
                !opts.query_b_case,
                encode_utf8(opts.query@),
            ) {
                Ok((t, n)) => Ok((parts@ + t, (n + count_b) as nat)),
                Err(k) => Err(k),
            },
            opts.swap_ready(),
            opts.query_b == Some(*query_b),
            count_a <= isize::MAX,
            placeholder@ == swap_placeholder(content.spec_bytes(), content.spec_bytes().len()),
            matcher_spec(content@, opts.query@, opts.query_a_regex, opts.no_case, placeholder@)
                == Ok::<(Seq<u8>, nat), ReplaceErrorKind>((after_a@, count_a as nat)),
        decreases after@.len() - pos,
    {
        let rest = &after[pos..after.len()];
        assert(rest@ =~= after@.skip(pos as int));
        proof {
            lemma_find_from_props(rest@, placeholder@, 0);
        }
        match find_bytes_from(rest, placeholder.as_slice(), 0) {
            None => {
                proof {
                    lemma_valid_subrange(after@, pos as int, after@.len() as int);
                    assert(after@.subrange(pos as int, after@.len() as int) =~= rest@);
                }
                match replace_piece(
                    rest,
                    query_b.as_str(),
                    opts.query_b_regex,
                    !opts.query_b_case,
                    opts.query.as_str(),
                ) {
                    Err(e) => {
                        return Err(e);
                    },
                    Ok((tail_new, tail_count)) => {
                        push_all(&mut parts, tail_new.as_slice());
                        let total_b = count_b + tail_count;
                        let final_text = replace_bytes(
                            parts.as_slice(),
                            placeholder.as_slice(),
                            opts.replace.as_str().as_bytes(),
                        );
                        return Ok((final_text, count_a + total_b));
                    },
                }
            },
            Some(i) => {
                let start = pos + i;
                proof {
                    assert(after@[start as int] == rest@[i as int]);
                    assert(rest@.subrange(i as int, i + 36)[0] == placeholder@[0]);
                    lemma_valid_subrange(after@, pos as int, start as int);
                    assert(after@.subrange(pos as int, start as int) =~= rest@.take(i as int));
                    assert(after@[start + 35] == rest@.subrange(i as int, i + 36)[35]);
                    lemma_after_ascii_boundary(after@, start + 35);
                }
                let seg_bytes = &after[pos..start];
                match replace_piece(
                    seg_bytes,
                    query_b.as_str(),
                    opts.query_b_regex,
                    !opts.query_b_case,
                    opts.query.as_str(),
                ) {
                    Err(e) => {
                        return Err(e);
                    },
                    Ok((new_segment, seg_count)) => {
                        let ghost before = parts@;
                        push_all(&mut parts, new_segment.as_slice());
                        push_all(&mut parts, placeholder.as_slice());
                        assert(parts@ =~= before + (new_segment@ + placeholder@));
                        assert(rest@.skip(i + 36) =~= after@.skip(start + 36));
                        proof {
                            let tail_spec = swap_segments(
                                after@.skip(start + 36),
                                placeholder@,
                                query_b@,
                                opts.query_b_regex,
                                !opts.query_b_case,
                                encode_utf8(opts.query@),
                            );
                            assert(find_from(rest@, placeholder@, 0) == Some(i as int));
                            assert(swap_segments(
                                rest@,
                                placeholder@,
                                query_b@,
                                opts.query_b_regex,
                                !opts.query_b_case,
                                encode_utf8(opts.query@),
                            ) == match tail_spec {
                                Ok((t2, n2)) => Ok((new_segment@ + placeholder@ + t2, (seg_count + n2) as nat)),
                                Err(k) => Err(k),
                            });
                            match tail_spec {
                                Ok((t2, n2)) => {
                                    assert(before + (new_segment@ + placeholder@ + t2) =~= parts@
                                        + t2);
                                },
                                Err(_) => {},
                            }
                        }
                        count_b = count_b + seg_count;
                        pos = start + 36;
                    },
                }
            },
        }
    }
}

} // verus!
