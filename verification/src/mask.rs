//! Attention masks: which keys a query must not look at.
use vstd::prelude::*;

verus! {

/// The masks of a batch: for every sequence, or once for all of them, for every query and every
/// key whether the query must not look at the key.
pub struct AttentionMask {
    pub planes: Vec<Vec<Vec<bool>>>,
}

/// The rows of a table as sequences.
pub open spec fn flag_rows(rows: Seq<Vec<bool>>) -> Seq<Seq<bool>> {
    rows.map_values(|r: Vec<bool>| r@)
}

impl View for AttentionMask {
    type V = Seq<Seq<Seq<bool>>>;

    open spec fn view(&self) -> Seq<Seq<Seq<bool>>> {
        self.planes@.map_values(|p: Vec<Vec<bool>>| flag_rows(p@))
    }
}

/// A table with `rows` rows of `cols` flags each.
pub open spec fn is_table(t: Seq<Seq<bool>>, rows: nat, cols: nat) -> bool {
    &&& t.len() == rows
    &&& forall|i: int| 0 <= i < rows ==> (#[trigger] t[i]).len() == cols
}

/// A mask of `planes` tables with `queries` rows and `keys` columns.
pub open spec fn is_mask(m: Seq<Seq<Seq<bool>>>, planes: nat, queries: nat, keys: nat) -> bool {
    &&& m.len() == planes
    &&& forall|p: int| 0 <= p < planes ==> is_table(#[trigger] m[p], queries, keys)
}

/// What an optional mask holds.
pub open spec fn mask_view(m: Option<AttentionMask>) -> Option<Seq<Seq<Seq<bool>>>> {
    match m {
        Some(mask) => Some(mask@),
        None => None,
    }
}

/// What an optional table of flags holds.
pub open spec fn table_view(t: Option<Vec<Vec<bool>>>) -> Option<Seq<Seq<bool>>> {
    match t {
        Some(rows) => Some(flag_rows(rows@)),
        None => None,
    }
}

/// The causal mask of the last `queries` of `keys` positions. Query `i` stands at position
/// `keys - queries + i`, and must not look at the keys after it.
pub open spec fn causal_plane(queries: nat, keys: nat) -> Seq<Seq<bool>> {
    Seq::new(queries, |i: int| Seq::new(keys, |j: int| keys - queries + i < j))
}

/// The causal mask of one sequence whose valid keys are marked in `valid`: padding is hidden from
/// every query too.
pub open spec fn padded_plane(valid: Seq<bool>, queries: nat, keys: nat) -> Seq<Seq<bool>> {
    Seq::new(queries, |i: int| Seq::new(keys, |j: int| !valid[j] || keys - queries + i < j))
}

/// The mask of a forward pass of the last `queries` of `keys` positions: causal, and without the
/// padding where it is given.
pub open spec fn prefill_mask(
    padding: Option<Seq<Seq<bool>>>,
    queries: nat,
    keys: nat,
) -> Seq<Seq<Seq<bool>>> {
    match padding {
        Some(valid) => Seq::new(valid.len(), |b: int| padded_plane(valid[b], queries, keys)),
        None => seq![causal_plane(queries, keys)],
    }
}

/// The mask of a forward pass with a cache, where `keys` counts the cached positions too. A lone
/// query comes last: without padding it may look at every key and needs no mask.
pub open spec fn cached_mask(
    padding: Option<Seq<Seq<bool>>>,
    queries: nat,
    keys: nat,
) -> Option<Seq<Seq<Seq<bool>>>> {
    if queries == 1 && padding is None {
        None
    } else {
        Some(prefill_mask(padding, queries, keys))
    }
}

/// Whether an optional table of flags has a row of `keys` flags for every sequence.
pub open spec fn padding_fits(padding: Option<Seq<Seq<bool>>>, batch: nat, keys: nat) -> bool {
    padding matches Some(t) ==> is_table(t, batch, keys)
}

/// The row of the causal mask for the query at a position.
fn causal_row(position: usize, keys: usize) -> (r: Vec<bool>)
    ensures
        r@ == Seq::new(keys as nat, |j: int| position < j),
{
    let mut row: Vec<bool> = Vec::new();
    let mut j: usize = 0;
    while j < keys
        invariant
            0 <= j <= keys,
            row@ == Seq::new(j as nat, |j: int| position < j),
        decreases keys - j,
    {
        row.push(position < j);
        j += 1;
    }
    row
}

/// The row of the causal mask of a sequence with padding for the query at a position.
fn padded_row(valid: &Vec<bool>, position: usize, keys: usize) -> (r: Vec<bool>)
    requires
        valid@.len() == keys,
    ensures
        r@ == Seq::new(keys as nat, |j: int| !valid@[j] || position < j),
{
    let mut row: Vec<bool> = Vec::new();
    let mut j: usize = 0;
    while j < keys
        invariant
            0 <= j <= keys,
            valid@.len() == keys,
            row@ == Seq::new(j as nat, |j: int| !valid@[j] || position < j),
        decreases keys - j,
    {
        row.push(!valid[j] || position < j);
        j += 1;
    }
    row
}

/// The mask of a forward pass.
///
/// # Arguments
/// * `padding` - Optional flags `[batch, keys]`, true for a valid token
/// * `queries` - The number of queries, which are the last of the positions
/// * `keys` - The number of positions
pub fn build_prefill_mask(
    padding: &Option<Vec<Vec<bool>>>,
    queries: usize,
    keys: usize,
) -> (r: AttentionMask)
    requires
        queries <= keys,
        padding matches Some(t) ==> is_table(flag_rows(t@), t@.len(), keys as nat),
    ensures
        r@ == prefill_mask(table_view(*padding), queries as nat, keys as nat),
{
    let mut planes: Vec<Vec<Vec<bool>>> = Vec::new();
    match padding {
        Some(table) => {
            let ghost rows = flag_rows(table@);
            let mut b: usize = 0;
            while b < table.len()
                invariant
                    0 <= b <= table@.len(),
                    queries <= keys,
                    rows == flag_rows(table@),
                    is_table(rows, table@.len(), keys as nat),
                    planes@.len() == b,
                    forall|p: int|
                        0 <= p < b ==> flag_rows((#[trigger] planes@[p])@) == padded_plane(
                            rows[p],
                            queries as nat,
                            keys as nat,
                        ),
                decreases table@.len() - b,
            {
                let valid = &table[b];
                assert(rows[b as int] == valid@);
                let mut plane: Vec<Vec<bool>> = Vec::new();
                let ghost want = padded_plane(valid@, queries as nat, keys as nat);
                let mut i: usize = 0;
                while i < queries
                    invariant
                        0 <= i <= queries <= keys,
                        valid@.len() == keys,
                        want == padded_plane(valid@, queries as nat, keys as nat),
                        flag_rows(plane@) == want.take(i as int),
                    decreases queries - i,
                {
                    let row = padded_row(valid, keys - queries + i, keys);
                    let ghost before = flag_rows(plane@);
                    assert(row@ =~= want[i as int]);
                    plane.push(row);
                    assert(flag_rows(plane@) =~= before.push(row@));
                    assert(before.push(row@) =~= want.take(i + 1));
                    i += 1;
                }
                assert(want.take(queries as int) =~= want);
                planes.push(plane);
                b += 1;
            }
            let r = AttentionMask { planes };
            assert(r@ =~= prefill_mask(table_view(*padding), queries as nat, keys as nat));
            r
        },
        None => {
            let mut plane: Vec<Vec<bool>> = Vec::new();
            let ghost want = causal_plane(queries as nat, keys as nat);
            let mut i: usize = 0;
            while i < queries
                invariant
                    0 <= i <= queries <= keys,
                    want == causal_plane(queries as nat, keys as nat),
                    flag_rows(plane@) == want.take(i as int),
                decreases queries - i,
            {
                let row = causal_row(keys - queries + i, keys);
                let ghost before = flag_rows(plane@);
                assert(row@ =~= want[i as int]);
                plane.push(row);
                assert(flag_rows(plane@) =~= before.push(row@));
                assert(before.push(row@) =~= want.take(i + 1));
                i += 1;
            }
            assert(want.take(queries as int) =~= want);
            planes.push(plane);
            let r = AttentionMask { planes };
            assert(r@ =~= prefill_mask(table_view(*padding), queries as nat, keys as nat));
            r
        },
    }
}

/// The mask of a forward pass with a cache.
///
/// # Arguments
/// * `padding` - Optional flags `[batch, keys]`, true for a valid token
/// * `queries` - The number of new positions
/// * `keys` - The number of positions, the cached ones included
pub fn build_cached_mask(
    padding: &Option<Vec<Vec<bool>>>,
    queries: usize,
    keys: usize,
) -> (r: Option<AttentionMask>)
    requires
        queries <= keys,
        padding matches Some(t) ==> is_table(flag_rows(t@), t@.len(), keys as nat),
    ensures
        mask_view(r) == cached_mask(table_view(*padding), queries as nat, keys as nat),
{
    if queries == 1 && padding.is_none() {
        return None;
    }
    Some(build_prefill_mask(padding, queries, keys))
}

/// What a mask hides: from the query at position `keys - queries + query` every later key, and
/// every key that is padding; nothing else.
pub proof fn lemma_what_is_hidden(
    padding: Option<Seq<Seq<bool>>>,
    queries: nat,
    keys: nat,
    plane: int,
    query: int,
    key: int,
)
    requires
        0 <= plane < prefill_mask(padding, queries, keys).len(),
        0 <= query < queries <= keys,
        0 <= key < keys,
    ensures
        prefill_mask(padding, queries, keys)[plane][query][key] <==> keys - queries + query < key
            || (padding matches Some(valid) && !valid[plane][key]),
{
}

/// What a mask holds is its flags.
pub proof fn lemma_mask_holds_its_flags(mask: AttentionMask, plane: int, query: int, key: int)
    requires
        0 <= plane < mask.planes@.len(),
        0 <= query < mask.planes@[plane]@.len(),
        0 <= key < mask.planes@[plane]@[query]@.len(),
    ensures
        mask@.len() == mask.planes@.len(),
        mask@[plane].len() == mask.planes@[plane]@.len(),
        mask@[plane][query].len() == mask.planes@[plane]@[query]@.len(),
        mask@[plane][query][key] == mask.planes@[plane]@[query]@[key],
{
}

/// A mask has a table for every sequence where padding is given, and one for all otherwise, with a
/// row for every query and a flag for every key.
pub proof fn lemma_mask_is_whole(
    padding: Option<Seq<Seq<bool>>>,
    queries: nat,
    keys: nat,
    plane: int,
    query: int,
)
    requires
        0 <= plane < prefill_mask(padding, queries, keys).len(),
        0 <= query < queries,
    ensures
        prefill_mask(padding, queries, keys).len() == match padding {
            Some(valid) => valid.len(),
            None => 1,
        },
        prefill_mask(padding, queries, keys)[plane].len() == queries,
        prefill_mask(padding, queries, keys)[plane][query].len() == keys,
{
}

/// With a cache, more than one query hides the same as without: the keys after it, and padding. So
/// does a lone query where padding is given.
pub proof fn lemma_what_is_hidden_with_cache(
    padding: Option<Seq<Seq<bool>>>,
    queries: nat,
    keys: nat,
    plane: int,
    query: int,
    key: int,
)
    requires
        queries > 1 || padding is Some,
        0 <= plane < match padding {
            Some(valid) => valid.len(),
            None => 1,
        },
        0 <= query < queries <= keys,
        0 <= key < keys,
    ensures
        cached_mask(padding, queries, keys) matches Some(mask) && (mask[plane][query][key]
            <==> keys - queries + query < key || (padding matches Some(valid)
            && !valid[plane][key])),
{
    lemma_what_is_hidden(padding, queries, keys, plane, query, key);
}

/// A lone query with a cache looks at every key that is no padding: its mask is the flags turned
/// round, and there is none without flags.
pub proof fn lemma_lone_query_mask(flags: Seq<Seq<bool>>, keys: nat)
    requires
        is_table(flags, flags.len(), keys),
        keys > 0,
    ensures
        cached_mask(None, 1, keys) is None,
        cached_mask(Some(flags), 1, keys) == Some(
            Seq::new(flags.len(), |b: int| seq![flags[b].map_values(|f: bool| !f)]),
        ),
{
    let a = prefill_mask(Some(flags), 1, keys);
    let c = Seq::new(flags.len(), |b: int| seq![flags[b].map_values(|f: bool| !f)]);
    assert forall|b: int| 0 <= b < flags.len() implies #[trigger] a[b] == c[b] by {
        assert(a[b][0] =~= c[b][0]);
        assert(a[b] =~= c[b]);
    }
    assert(a =~= c);
}

/// A padding mask that marks every key as valid hides from each sequence what the causal mask
/// hides.
pub proof fn lemma_no_padding_is_causal(valid: Seq<Seq<bool>>, queries: nat, keys: nat, plane: int)
    requires
        is_table(valid, valid.len(), keys),
        0 <= plane < valid.len(),
        forall|j: int| 0 <= j < keys ==> #[trigger] valid[plane][j],
    ensures
        prefill_mask(Some(valid), queries, keys)[plane] == prefill_mask(None, queries, keys)[0],
{
    let a = prefill_mask(Some(valid), queries, keys)[plane];
    let b = prefill_mask(None, queries, keys)[0];
    assert forall|i: int| 0 <= i < queries implies #[trigger] a[i] == b[i] by {
        assert(a[i] =~= b[i]);
    }
    assert(a =~= b);
}

} // verus!
