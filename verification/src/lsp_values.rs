//! How Lua values of the LSP client map to JSON and editor styles: which
//! tables are JSON arrays, and the syntax style shown for each completion
//! item kind.

use vstd::prelude::*;

verus! {

/// A key of a Lua table, as far as the JSON encoding cares: an integer or
/// anything else.
#[derive(PartialEq, Eq, Structural, Debug, Clone, Copy)]
pub enum TableKey {
    Int(i64),
    Other,
}

/// A positive integer key, as an array index.
pub open spec fn is_index(k: TableKey) -> bool {
    k matches TableKey::Int(n) && n >= 1
}

/// The largest positive integer key (0 when there is none).
pub open spec fn max_index(keys: Seq<TableKey>) -> int
    decreases keys.len(),
{
    if keys.len() == 0 {
        0
    } else {
        let m = max_index(keys.drop_last());
        match keys.last() {
            TableKey::Int(n) => if n >= 1 && n > m {
                n as int
            } else {
                m
            },
            TableKey::Other => m,
        }
    }
}

/// A table is written as a JSON array when all its keys are positive
/// integers and there are as many keys as the largest of them.
pub open spec fn array_like_spec(keys: Seq<TableKey>) -> bool {
    (forall|i: int| 0 <= i < keys.len() ==> is_index(#[trigger] keys[i])) && keys.len()
        == max_index(keys)
}

/// Whether a table with these keys (in any order) is a JSON array.
pub fn is_array_like(keys: &[TableKey]) -> (r: bool)
    ensures
        r == array_like_spec(keys@),
{
    let mut max_idx: i64 = 0;
    let mut count: usize = 0;
    let mut i: usize = 0;
    while i < keys.len()
        invariant
            i <= keys@.len(),
            count == i,
            max_idx == max_index(keys@.take(i as int)),
            forall|k: int| 0 <= k < i ==> is_index(#[trigger] keys@[k]),
        decreases keys@.len() - i,
    {
        assert(keys@.take(i + 1).drop_last() =~= keys@.take(i as int));
        match keys[i] {
            TableKey::Int(n) => {
                if n < 1 {
                    return false;
                }
                if n > max_idx {
                    max_idx = n;
                }
            },
            TableKey::Other => {
                return false;
            },
        }
        count = count + 1;
        i = i + 1;
    }
    assert(keys@.take(i as int) =~= keys@);
    max_idx >= 0 && (count as u64) == (max_idx as u64)
}

/// The integer of a key (0 for other keys).
pub open spec fn key_value(k: TableKey) -> int {
    match k {
        TableKey::Int(n) => n as int,
        TableKey::Other => 0,
    }
}

proof fn lemma_max_index(keys: Seq<TableKey>)
    ensures
        max_index(keys) >= 0,
        forall|i: int|
            0 <= i < keys.len() && is_index(#[trigger] keys[i]) ==> key_value(keys[i]) <= max_index(
                keys,
            ),
        max_index(keys) == 0 || exists|i: int|
            0 <= i < keys.len() && is_index(#[trigger] keys[i]) && key_value(keys[i]) == max_index(
                keys,
            ),
    decreases keys.len(),
{
    if keys.len() > 0 {
        let init = keys.drop_last();
        lemma_max_index(init);
        assert forall|i: int| 0 <= i < init.len() implies #[trigger] init[i] == keys[i] by {}
        assert forall|i: int|
            0 <= i < keys.len() && is_index(#[trigger] keys[i]) implies key_value(keys[i])
            <= max_index(keys) by {
            if i < init.len() {
                assert(keys[i] == init[i]);
            }
        }
        if max_index(keys) != max_index(init) {
            assert(is_index(keys[keys.len() - 1]));
        } else if max_index(init) != 0 {
            let i = choose|i: int|
                0 <= i < init.len() && is_index(#[trigger] init[i]) && key_value(init[i])
                    == max_index(init);
            assert(keys[i] == init[i]);
        }
    }
}

/// For a table (whose keys are all different), the JSON encoding is an
/// array exactly when its keys are the integers `1` to the number of keys.
pub proof fn array_keys_are_one_to_n(keys: Seq<TableKey>)
    requires
        keys.no_duplicates(),
    ensures
        array_like_spec(keys) <==> (forall|i: int|
            0 <= i < keys.len() ==> (#[trigger] keys[i] matches TableKey::Int(n) && 1 <= n <= keys.len())),
{
    lemma_max_index(keys);
    let len = keys.len() as int;
    if forall|i: int| 0 <= i < keys.len() ==> (#[trigger] keys[i] matches TableKey::Int(n) && 1 <= n <= keys.len()) {
        assert forall|i: int| 0 <= i < keys.len() implies is_index(#[trigger] keys[i]) by {}
        if max_index(keys) < len {
            let vals = keys.map_values(|k: TableKey| key_value(k));
            assert forall|i: int, j: int|
                0 <= i < vals.len() && 0 <= j < vals.len() && i != j implies #[trigger] vals[i]
                != #[trigger] vals[j] by {
                assert(keys[i] != keys[j]);
                assert(keys[i] matches TableKey::Int(_));
                assert(keys[j] matches TableKey::Int(_));
            }
            assert(vals.no_duplicates());
            vals.unique_seq_to_set();
            vstd::set_lib::lemma_int_range(1, len);
            assert forall|x: int| vals.to_set().contains(x) implies vstd::set_lib::set_int_range(
                1,
                len,
            ).contains(x) by {
                assert(vals.contains(x));
                let i = choose|i: int| 0 <= i < vals.len() && vals[i] == x;
                assert(is_index(keys[i]));
                assert(key_value(keys[i]) <= max_index(keys));
            }
            vstd::set_lib::lemma_len_subset(vals.to_set(), vstd::set_lib::set_int_range(1, len));
            assert(false);
        }
        if max_index(keys) > len {
            let i = choose|i: int|
                0 <= i < keys.len() && is_index(#[trigger] keys[i]) && key_value(keys[i])
                    == max_index(keys);
        }
    }
}

/// The syntax style that the completion list uses for an item kind of the
/// protocol (1 text, 2 method, 3 function, ... 25 type parameter).
pub open spec fn kind_style(kind: i64) -> Option<Seq<char>> {
    if kind == 2 || kind == 3 || kind == 12 {
        Some("function"@)
    } else if kind == 11 || kind == 21 {
        Some("literal"@)
    } else if kind == 13 || kind == 14 || kind == 16 || kind == 18 || kind == 19 || kind == 24
        || kind == 25 {
        Some("keyword"@)
    } else if kind == 15 {
        Some("string"@)
    } else if kind == 17 {
        Some("file"@)
    } else if kind == 23 {
        Some("operator"@)
    } else if 1 <= kind <= 22 {
        Some("keyword2"@)
    } else {
        None
    }
}

/// The style name for a completion item kind, if the kind is known.
pub fn completion_kind_style(kind: i64) -> (r: Option<&'static str>)
    ensures
        r matches Some(s) ==> kind_style(kind) == Some(s@),
        r is None ==> kind_style(kind) is None,
{
    if kind == 2 || kind == 3 || kind == 12 {
        Some("function")
    } else if kind == 11 || kind == 21 {
        Some("literal")
    } else if kind == 13 || kind == 14 || kind == 16 || kind == 18 || kind == 19 || kind == 24
        || kind == 25 {
        Some("keyword")
    } else if kind == 15 {
        Some("string")
    } else if kind == 17 {
        Some("file")
    } else if kind == 23 {
        Some("operator")
    } else if 1 <= kind && kind <= 22 {
        Some("keyword2")
    } else {
        None
    }
}

} // verus!
