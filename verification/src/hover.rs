//! Structured replies of language servers turned into what the editor
//! shows: the text of hover contents (plain strings, marked-up content, or
//! lists of either), the flat list of a document's symbols, and the
//! signature-help line.

use vstd::prelude::*;
use vstd::string::StringSliceAdditionalSpecFns;

use crate::text::{byte_boundary, find_bytes_from, find_from, push_all, push_range};

verus! {

/// Hover contents: a string, a `{kind, value}` markup record (its value),
/// a list of contents, or anything else.
pub enum HoverContent {
    Text(Vec<u8>),
    Markup(Box<HoverContent>),
    List(Vec<HoverContent>),
    Empty,
}

/// The text shown for hover contents: lists are joined with new lines.
pub open spec fn content_text(c: HoverContent) -> Seq<u8>
    decreases c, 1nat,
{
    match c {
        HoverContent::Text(s) => s@,
        HoverContent::Markup(b) => content_text(*b),
        HoverContent::List(v) => list_text(v@, true),
        HoverContent::Empty => seq![],
    }
}

/// The texts of `items` joined with new lines; `first` tells whether no
/// item was written before.
pub open spec fn list_text(items: Seq<HoverContent>, first: bool) -> Seq<u8>
    decreases items, 0nat,
{
    if items.len() == 0 {
        seq![]
    } else {
        (if first {
            seq![]
        } else {
            seq![10u8]
        }) + content_text(items[0]) + list_text(items.subrange(1, items.len() as int), false)
    }
}

/// The text of hover contents.
pub fn content_to_text(c: &HoverContent) -> (r: Vec<u8>)
    ensures
        r@ == content_text(*c),
    decreases c,
{
    match c {
        HoverContent::Text(s) => {
            let mut out: Vec<u8> = Vec::new();
            push_all(&mut out, s.as_slice());
            out
        },
        HoverContent::Markup(b) => content_to_text(b),
        HoverContent::List(v) => {
            let mut out: Vec<u8> = Vec::new();
            let mut i: usize = 0;
            assert(v@.subrange(0, v@.len() as int) =~= v@);
            while i < v.len()
                invariant
                    i <= v@.len(),
                    *c == HoverContent::List(*v),
                    list_text(v@, true) == out@ + list_text(
                        v@.subrange(i as int, v@.len() as int),
                        i == 0,
                    ),
                decreases v@.len() - i,
            {
                let ghost rest = v@.subrange(i as int, v@.len() as int);
                assert(rest[0] == v@[i as int]);
                assert(rest.subrange(1, rest.len() as int) =~= v@.subrange(i + 1, v@.len() as int));
                let ghost before = out@;
                let ghost first = i == 0;
                if i > 0 {
                    out.push(10);
                }
                proof {
                    assert(*c == HoverContent::List(*v));
                    assert(decreases_to!(*c => c->List_0));
                    assert(decreases_to!(*v => v@));
                    assert(decreases_to!(v@ => v@[i as int]));
                }
                let t = content_to_text(&v[i]);
                push_all(&mut out, t.as_slice());
                i = i + 1;
                assert(before + list_text(rest, first) =~= out@ + list_text(
                    v@.subrange(i as int, v@.len() as int),
                    false,
                ));
            }
            assert(list_text(v@.subrange(i as int, v@.len() as int), i == 0) =~= Seq::<u8>::empty());
            assert(out@ + Seq::<u8>::empty() =~= out@);
            out
        },
        HoverContent::Empty => Vec::new(),
    }
}

/// A document symbol: `id` identifies it to the caller; its name, its own
/// URI, whether it has a range to jump to, and its children.
pub struct DocSymbol {
    pub id: usize,
    pub name: Option<Vec<u8>>,
    pub uri: Option<Vec<u8>>,
    pub has_range: bool,
    pub children: Vec<DocSymbol>,
}

/// An entry of the symbol picker: the symbol's id, its displayed name and
/// its URI.
pub struct FlatSymbol {
    pub id: usize,
    pub text: Vec<u8>,
    pub uri: Vec<u8>,
}

/// The displayed name of a symbol under `prefix`: `prefix / name`, or the
/// name alone at the top.
pub open spec fn display_name(prefix: Seq<u8>, name: Seq<u8>) -> Seq<u8> {
    if prefix.len() == 0 {
        name
    } else {
        prefix + seq![32u8, 47, 32] + name
    }
}

/// A symbol's name, `?` when it has none.
pub open spec fn name_of(s: DocSymbol) -> Seq<u8> {
    match s.name {
        Some(n) => n@,
        None => seq![63u8],
    }
}

/// A symbol's URI, or the one it inherits.
pub open spec fn uri_of(s: DocSymbol, inherited: Seq<u8>) -> Seq<u8> {
    match s.uri {
        Some(u) => u@,
        None => inherited,
    }
}

/// The picker entries of a symbol and its descendants, depth first: the
/// symbol itself when it has a range, then its children under its name.
pub open spec fn flat_one(s: DocSymbol, uri: Seq<u8>, prefix: Seq<u8>) -> Seq<(nat, Seq<u8>, Seq<u8>)>
    decreases s, 1nat,
{
    let disp = display_name(prefix, name_of(s));
    let u = uri_of(s, uri);
    (if s.has_range {
        seq![(s.id as nat, disp, u)]
    } else {
        seq![]
    }) + flat_list(s.children@, u, disp)
}

/// The picker entries of a list of symbols, in order.
pub open spec fn flat_list(items: Seq<DocSymbol>, uri: Seq<u8>, prefix: Seq<u8>) -> Seq<
    (nat, Seq<u8>, Seq<u8>),
>
    decreases items, 0nat,
{
    if items.len() == 0 {
        seq![]
    } else {
        flat_one(items[0], uri, prefix) + flat_list(
            items.subrange(1, items.len() as int),
            uri,
            prefix,
        )
    }
}

/// The entries as values.
pub open spec fn flat_view(v: Seq<FlatSymbol>) -> Seq<(nat, Seq<u8>, Seq<u8>)> {
    v.map_values(|f: FlatSymbol| (f.id as nat, f.text@, f.uri@))
}

fn copy_bytes(b: &[u8]) -> (r: Vec<u8>)
    ensures
        r@ == b@,
{
    let mut r: Vec<u8> = Vec::new();
    push_all(&mut r, b);
    r
}

fn push_flat_one(out: &mut Vec<FlatSymbol>, s: &DocSymbol, uri: &[u8], prefix: &[u8])
    ensures
        flat_view(final(out)@) == flat_view(old(out)@) + flat_one(*s, uri@, prefix@),
    decreases s, 1nat,
{
    let mut disp: Vec<u8> = Vec::new();
    if prefix.len() > 0 {
        push_all(&mut disp, prefix);
        disp.push(32);
        disp.push(47);
        disp.push(32);
    }
    match &s.name {
        Some(n) => push_all(&mut disp, n.as_slice()),
        None => disp.push(63),
    }
    assert(disp@ =~= display_name(prefix@, name_of(*s)));
    let u = match &s.uri {
        Some(u) => copy_bytes(u.as_slice()),
        None => copy_bytes(uri),
    };
    let ghost before = flat_view(out@);
    if s.has_range {
        out.push(FlatSymbol { id: s.id, text: copy_bytes(disp.as_slice()), uri: copy_bytes(u.as_slice()) });
        assert(flat_view(out@) =~= before + seq![(s.id as nat, disp@, u@)]);
    } else {
        assert(flat_view(out@) =~= before + Seq::<(nat, Seq<u8>, Seq<u8>)>::empty());
    }
    let ghost mid = flat_view(out@);
    proof {
        assert(decreases_to!(*s => s.children));
    }
    push_flat_list(out, s.children.as_slice(), u.as_slice(), disp.as_slice());
    assert(flat_view(out@) =~= before + flat_one(*s, uri@, prefix@));
}

fn push_flat_list(out: &mut Vec<FlatSymbol>, items: &[DocSymbol], uri: &[u8], prefix: &[u8])
    ensures
        flat_view(final(out)@) == flat_view(old(out)@) + flat_list(items@, uri@, prefix@),
    decreases items@, 0nat,
{
    let mut i: usize = 0;
    assert(items@.subrange(0, items@.len() as int) =~= items@);
    assert(flat_view(out@) + Seq::<(nat, Seq<u8>, Seq<u8>)>::empty() =~= flat_view(out@));
    while i < items.len()
        invariant
            i <= items@.len(),
            flat_view(old(out)@) + flat_list(items@, uri@, prefix@) == flat_view(out@) + flat_list(
                items@.subrange(i as int, items@.len() as int),
                uri@,
                prefix@,
            ),
        decreases items@.len() - i,
    {
        let ghost rest = items@.subrange(i as int, items@.len() as int);
        assert(rest[0] == items@[i as int]);
        assert(rest.subrange(1, rest.len() as int) =~= items@.subrange(i + 1, items@.len() as int));
        let ghost before = flat_view(out@);
        proof {
            assert(decreases_to!(items@ => items@[i as int]));
        }
        push_flat_one(out, &items[i], uri, prefix);
        i = i + 1;
        assert(before + flat_list(rest, uri@, prefix@) =~= flat_view(out@) + flat_list(
            items@.subrange(i as int, items@.len() as int),
            uri@,
            prefix@,
        ));
    }
    assert(flat_list(items@.subrange(i as int, items@.len() as int), uri@, prefix@)
        =~= Seq::<(nat, Seq<u8>, Seq<u8>)>::empty());
}

/// The picker entries of a document's symbols; `uri` is the document's,
/// inherited by symbols that name none.
pub fn flatten_document_symbols(symbols: &[DocSymbol], uri: &[u8]) -> (r: Vec<FlatSymbol>)
    ensures
        flat_view(r@) == flat_list(symbols@, uri@, seq![]),
{
    let mut out: Vec<FlatSymbol> = Vec::new();
    let empty: Vec<u8> = Vec::new();
    push_flat_list(&mut out, symbols, uri, empty.as_slice());
    assert(flat_view(out@) =~= Seq::<(nat, Seq<u8>, Seq<u8>)>::empty() + flat_list(
        symbols@,
        uri@,
        empty@,
    ));
    out
}

/// The longest signature-help line shown, in bytes.
pub const SIGNATURE_DISPLAY_MAX: usize = 240;

/// `label` with the first occurrence of the active parameter's label `p`
/// put in brackets.
pub open spec fn mark_parameter(label: Seq<u8>, p: Seq<u8>) -> Seq<u8> {
    match find_from(label, p, 0) {
        Some(i) => label.take(i) + "[".spec_bytes() + p + "]".spec_bytes() + label.skip(i + p.len()),
        None => label,
    }
}

/// The signature line: the label, with the active parameter marked where
/// it has a label.
pub open spec fn signature_line(label: Seq<u8>, param: Option<Seq<u8>>) -> Seq<u8> {
    match param {
        Some(p) => mark_parameter(label, p),
        None => label,
    }
}

/// The signature-help text shown for `label` and the active parameter's
/// label `param`: the signature line, cut to its first
/// `SIGNATURE_DISPLAY_MAX` bytes. `None` where that cut would split a
/// character, which `str` slicing refuses.
pub fn signature_display(label: &str, param: Option<&str>) -> (r: Option<Vec<u8>>)
    ensures
        ({
            let line = signature_line(
                label.spec_bytes(),
                match param {
                    Some(p) => Some(p.spec_bytes()),
                    None => None,
                },
            );
            match r {
                Some(v) => line.len() <= SIGNATURE_DISPLAY_MAX && v@ == line || line.len()
                    > SIGNATURE_DISPLAY_MAX && byte_boundary(line, SIGNATURE_DISPLAY_MAX as int)
                    && v@ == line.take(SIGNATURE_DISPLAY_MAX as int),
                None => line.len() > SIGNATURE_DISPLAY_MAX && !byte_boundary(
                    line,
                    SIGNATURE_DISPLAY_MAX as int,
                ),
            }
        }),
{
    let l = label.as_bytes();
    let n = l.len();
    let mut line: Vec<u8> = Vec::new();
    match param {
        Some(p) => {
            let pb = p.as_bytes();
            match find_bytes_from(l, pb, 0) {
                Some(i) => {
                    proof {
                        crate::text::lemma_find_from_props(l@, pb@, 0);
                        assert(crate::text::occurs_at(l@, pb@, i as int));
                        assert(i + pb@.len() <= l@.len());
                    }
                    let end = i + pb.len();
                    push_range(&mut line, l, 0, i);
                    push_all(&mut line, "[".as_bytes());
                    push_all(&mut line, pb);
                    push_all(&mut line, "]".as_bytes());
                    push_range(&mut line, l, end, n);
                    assert(l@.subrange(0, i as int) =~= l@.take(i as int));
                    assert(l@.subrange(i + pb@.len(), l@.len() as int) =~= l@.skip(i + pb@.len()));
                },
                None => {
                    push_all(&mut line, l);
                },
            }
        },
        None => {
            push_all(&mut line, l);
        },
    }
    if line.len() <= SIGNATURE_DISPLAY_MAX {
        Some(line)
    } else if line[SIGNATURE_DISPLAY_MAX] < 128 || line[SIGNATURE_DISPLAY_MAX] >= 192 {
        let mut out: Vec<u8> = Vec::new();
        push_range(&mut out, line.as_slice(), 0, SIGNATURE_DISPLAY_MAX);
        assert(line@.subrange(0, SIGNATURE_DISPLAY_MAX as int) =~= line@.take(SIGNATURE_DISPLAY_MAX as int));
        Some(out)
    } else {
        None
    }
}

} // verus!
