//! Transposition transforms. The text is written row by row into a grid as
//! wide as the key and read back column by column: in key order for the
//! columnar transposition, down and up alternate columns for the route
//! transposition. Every character of the text is read exactly once; an
//! empty key leaves the text as it is.

use vstd::prelude::*;
use crate::text::{chars_of, string_of};

verus! {

/// Column `i` of `text` written in rows of `width`: the characters at the
/// positions `j` with `j % width == i`, top to bottom.
pub open spec fn column(text: Seq<char>, width: nat, i: int) -> Seq<char>
    decreases text.len(),
{
    if text.len() == 0 {
        Seq::empty()
    } else {
        let above = column(text.drop_last(), width, i);
        if (text.len() - 1) % (width as int) == i {
            above.push(text.last())
        } else {
            above
        }
    }
}

/// The columns listed in `order`, read one after the other.
pub open spec fn columns_in(text: Seq<char>, width: nat, order: Seq<int>) -> Seq<char>
    decreases order.len(),
{
    if order.len() == 0 {
        Seq::empty()
    } else {
        columns_in(text, width, order.drop_last()) + column(text, width, order.last())
    }
}

/// The key positions `0..m`, ordered by key symbol; equal symbols keep
/// their positions' order.
pub open spec fn key_order(key: Seq<char>, m: nat) -> Seq<int>
    decreases m,
{
    if m == 0 {
        Seq::empty()
    } else {
        let earlier = key_order(key, (m - 1) as nat);
        let p = m - 1;
        earlier.filter(|q: int| key[q] as u32 <= key[p] as u32) + seq![p] + earlier.filter(
            |q: int| !(key[q] as u32 <= key[p] as u32),
        )
    }
}

pub open spec fn columnar_spec(text: Seq<char>, key: Seq<char>) -> Seq<char> {
    if key.len() == 0 {
        text
    } else {
        columns_in(text, key.len(), key_order(key, key.len()))
    }
}

/// Columns `0..m`, even ones read top to bottom and odd ones bottom to top.
pub open spec fn route_columns(text: Seq<char>, width: nat, m: nat) -> Seq<char>
    decreases m,
{
    if m == 0 {
        Seq::empty()
    } else {
        let i = m - 1;
        route_columns(text, width, (m - 1) as nat) + if i % 2 == 0 {
            column(text, width, i)
        } else {
            column(text, width, i).reverse()
        }
    }
}

pub open spec fn route_spec(text: Seq<char>, key: Seq<char>) -> Seq<char> {
    if key.len() == 0 {
        text
    } else {
        route_columns(text, key.len(), key.len())
    }
}

/// The positions `0..m` in increasing order.
pub open spec fn positions(m: nat) -> Seq<int> {
    Seq::new(m, |i: int| i)
}

proof fn lemma_columns_concat(text: Seq<char>, width: nat, a: Seq<int>, b: Seq<int>)
    ensures
        columns_in(text, width, a + b).len() == columns_in(text, width, a).len() + columns_in(
            text,
            width,
            b,
        ).len(),
    decreases b.len(),
{
    if b.len() > 0 {
        lemma_columns_concat(text, width, a, b.drop_last());
        assert((a + b).drop_last() =~= a + b.drop_last());
    } else {
        assert(a + b =~= a);
    }
}

proof fn lemma_columns_split(
    text: Seq<char>,
    width: nat,
    o: Seq<int>,
    p: spec_fn(int) -> bool,
    q: spec_fn(int) -> bool,
)
    requires
        forall|x: int| #[trigger] q(x) == !p(x),
    ensures
        columns_in(text, width, o).len() == columns_in(text, width, o.filter(p)).len()
            + columns_in(text, width, o.filter(q)).len(),
    decreases o.len(),
{
    if o.len() > 0 {
        let d = o.drop_last();
        lemma_columns_split(text, width, d, p, q);
        assert(o =~= d.push(o.last()));
        d.lemma_filter_push(o.last(), p);
        d.lemma_filter_push(o.last(), q);
        if p(o.last()) {
            assert(o.filter(p).drop_last() =~= d.filter(p));
        } else {
            assert(o.filter(q).drop_last() =~= d.filter(q));
        }
    }
}

proof fn lemma_key_order_len(text: Seq<char>, key: Seq<char>, m: nat)
    requires
        m <= key.len(),
    ensures
        columns_in(text, key.len(), key_order(key, m)).len() == columns_in(
            text,
            key.len(),
            positions(m),
        ).len(),
    decreases m,
{
    if m > 0 {
        let w = key.len();
        let earlier = key_order(key, (m - 1) as nat);
        let p = m - 1;
        let le = |q: int| key[q] as u32 <= key[p] as u32;
        let gt = |q: int| !(key[q] as u32 <= key[p] as u32);
        lemma_key_order_len(text, key, (m - 1) as nat);
        lemma_columns_split(text, w, earlier, le, gt);
        lemma_columns_concat(text, w, earlier.filter(le) + seq![p], earlier.filter(gt));
        lemma_columns_concat(text, w, earlier.filter(le), seq![p]);
        assert(seq![p].drop_last() =~= Seq::<int>::empty());
        assert(seq![p].last() == p);
        assert(columns_in(text, w, Seq::<int>::empty()).len() == 0);
        assert(columns_in(text, w, seq![p]).len() == column(text, w, p).len());
        assert(positions(m).drop_last() =~= positions((m - 1) as nat));
    }
}

/// How many of `column(text, width, i)` for `i < m` there are, in total,
/// grows by one with each character whose column is below `m`.
proof fn lemma_positions_step(text: Seq<char>, width: nat, m: nat)
    requires
        width > 0,
        text.len() > 0,
    ensures
        columns_in(text, width, positions(m)).len() == columns_in(
            text.drop_last(),
            width,
            positions(m),
        ).len() + if (text.len() - 1) % (width as int) < m {
            1int
        } else {
            0int
        },
    decreases m,
{
    if m > 0 {
        lemma_positions_step(text, width, (m - 1) as nat);
        assert(positions(m).drop_last() =~= positions((m - 1) as nat));
    }
}

proof fn lemma_positions_len(text: Seq<char>, width: nat)
    requires
        width > 0,
    ensures
        columns_in(text, width, positions(width)).len() == text.len(),
    decreases text.len(),
{
    if text.len() > 0 {
        lemma_positions_step(text, width, width);
        lemma_positions_len(text.drop_last(), width);
    } else {
        lemma_positions_empty(text, width, width);
    }
}

proof fn lemma_positions_empty(text: Seq<char>, width: nat, m: nat)
    requires
        text.len() == 0,
    ensures
        columns_in(text, width, positions(m)).len() == 0,
    decreases m,
{
    if m > 0 {
        lemma_positions_empty(text, width, (m - 1) as nat);
        assert(positions(m).drop_last() =~= positions((m - 1) as nat));
    }
}

proof fn lemma_route_len(text: Seq<char>, width: nat, m: nat)
    ensures
        route_columns(text, width, m).len() == columns_in(text, width, positions(m)).len(),
    decreases m,
{
    if m > 0 {
        lemma_route_len(text, width, (m - 1) as nat);
        assert(positions(m).drop_last() =~= positions((m - 1) as nat));
    }
}

/// The columnar transposition of a text is exactly as long as the text:
/// every position of the result is filled from the text.
pub proof fn lemma_columnar_len(text: Seq<char>, key: Seq<char>)
    ensures
        columnar_spec(text, key).len() == text.len(),
{
    if key.len() > 0 {
        lemma_key_order_len(text, key, key.len());
        lemma_positions_len(text, key.len());
    }
}

/// The route transposition of a text is exactly as long as the text:
/// every position of the result is filled from the text.
pub proof fn lemma_route_spec_len(text: Seq<char>, key: Seq<char>)
    ensures
        route_spec(text, key).len() == text.len(),
{
    if key.len() > 0 {
        lemma_route_len(text, key.len(), key.len());
        lemma_positions_len(text, key.len());
    }
}


proof fn lemma_key_order_range(key: Seq<char>, m: nat)
    ensures
        forall|k: int|
            0 <= k < key_order(key, m).len() ==> 0 <= #[trigger] key_order(key, m)[k] < m,
    decreases m,
{
    if m > 0 {
        let earlier = key_order(key, (m - 1) as nat);
        let p = m - 1;
        let le = |q: int| key[q] as u32 <= key[p] as u32;
        let gt = |q: int| !(key[q] as u32 <= key[p] as u32);
        lemma_key_order_range(key, (m - 1) as nat);
        let o = key_order(key, m);
        assert(o == earlier.filter(le) + seq![p] + earlier.filter(gt));
        assert forall|k: int| 0 <= k < o.len() implies 0 <= #[trigger] o[k] < m by {
            let nl = earlier.filter(le).len();
            if k < nl {
                assert(earlier.filter(le).contains(o[k]));
                earlier.lemma_filter_contains_rev(le, o[k]);
            } else if k > nl {
                assert(o[k] == earlier.filter(gt)[k - nl - 1]);
                assert(earlier.filter(gt).contains(o[k]));
                earlier.lemma_filter_contains_rev(gt, o[k]);
            }
        }
    }
}

pub open spec fn as_ints(v: Seq<usize>) -> Seq<int> {
    v.map_values(|x: usize| x as int)
}

/// The key positions ordered by key symbol, equal symbols by position.
fn order_of(key: &Vec<char>) -> (r: Vec<usize>)
    ensures
        as_ints(r@) == key_order(key@, key.len() as nat),
        forall|k: int| 0 <= k < r.len() ==> r[k] < key.len(),
{
    let mut order: Vec<usize> = Vec::new();
    for m in 0..key.len()
        invariant
            as_ints(order@) == key_order(key@, m as nat),
            forall|k: int| 0 <= k < order.len() ==> order[k] < m,
    {
        let ghost earlier = key_order(key@, m as nat);
        let ghost le = |q: int| key@[q] as u32 <= key@[m as int] as u32;
        let ghost gt = |q: int| !(key@[q] as u32 <= key@[m as int] as u32);
        let mut left: Vec<usize> = Vec::new();
        let mut right: Vec<usize> = Vec::new();
        let km = key[m];
        for j in 0..order.len()
            invariant
                as_ints(order@) == earlier,
                forall|k: int| 0 <= k < order.len() ==> order[k] < m,
                m < key.len(),
                km == key@[m as int],
                forall|x: int| #[trigger] le(x) == (key@[x] as u32 <= key@[m as int] as u32),
                forall|x: int| #[trigger] gt(x) == !(key@[x] as u32 <= key@[m as int] as u32),
                as_ints(left@) == earlier.take(j as int).filter(le),
                as_ints(right@) == earlier.take(j as int).filter(gt),
                forall|k: int| 0 <= k < left.len() ==> left[k] < m,
                forall|k: int| 0 <= k < right.len() ==> right[k] < m,
        {
            let q = order[j];
            proof {
                assert(earlier.take(j + 1) =~= earlier.take(j as int).push(q as int));
                earlier.take(j as int).lemma_filter_push(q as int, le);
                earlier.take(j as int).lemma_filter_push(q as int, gt);
            }
            if key[q] as u32 <= km as u32 {
                left.push(q);
                proof {
                    assert(le(q as int));
                    assert(earlier.take(j + 1).filter(gt) == earlier.take(j as int).filter(gt));
                    assert(as_ints(left@) =~= earlier.take(j as int).filter(le).push(q as int));
                }
            } else {
                right.push(q);
                proof {
                    assert(gt(q as int));
                    assert(earlier.take(j + 1).filter(le) == earlier.take(j as int).filter(le));
                    assert(as_ints(right@) =~= earlier.take(j as int).filter(gt).push(q as int));
                }
            }
        }
        proof {
            assert(earlier.take(earlier.len() as int) =~= earlier);
        }
        left.push(m);
        let ghost lv = left@;
        let ghost rv = right@;
        left.append(&mut right);
        proof {
            assert(key_order(key@, (m + 1) as nat) == earlier.filter(le) + seq![m as int] + earlier.filter(gt));
            assert(as_ints(lv) =~= earlier.filter(le) + seq![m as int]);
            assert(as_ints(left@) =~= as_ints(lv) + as_ints(rv));
        }
        order = left;
    }
    order
}

/// Column `i` of `text` in rows of `width`.
fn column_of(text: &Vec<char>, width: usize, i: usize) -> (r: Vec<char>)
    requires
        width > 0,
    ensures
        r@ == column(text@, width as nat, i as int),
{
    let mut r: Vec<char> = Vec::new();
    for j in 0..text.len()
        invariant
            width > 0,
            r@ == column(text@.take(j as int), width as nat, i as int),
    {
        proof {
            assert(text@.take(j + 1).drop_last() =~= text@.take(j as int));
        }
        if j % width == i {
            r.push(text[j]);
        }
    }
    proof {
        assert(text@.take(text@.len() as int) =~= text@);
    }
    r
}

/// Writes the text in rows as wide as the key and reads the columns back in
/// the order of their key symbols (equal symbols left to right).
pub fn columnar_transposition(text: &str, key: &str) -> (r: String)
    ensures
        r@ == columnar_spec(text@, key@),
        r@.len() == text@.len(),
{
    proof {
        lemma_columnar_len(text@, key@);
    }
    let t = chars_of(text);
    let k = chars_of(key);
    if k.len() == 0 {
        return string_of(&t);
    }
    let w = k.len();
    let order = order_of(&k);
    let ghost ord = key_order(k@, w as nat);
    let mut out: Vec<char> = Vec::new();
    for idx in 0..order.len()
        invariant
            w == k.len(),
            w > 0,
            as_ints(order@) == ord,
            out@ == columns_in(t@, w as nat, ord.take(idx as int)),
    {
        let mut col = column_of(&t, w, order[idx]);
        proof {
            assert(ord.take(idx + 1).drop_last() =~= ord.take(idx as int));
            assert(ord[idx as int] == order[idx as int] as int);
        }
        out.append(&mut col);
    }
    proof {
        assert(ord.take(ord.len() as int) =~= ord);
    }
    string_of(&out)
}

/// Writes the text in rows as wide as the key and reads it back column by
/// column, left to right, going down the even columns and up the odd ones.
pub fn route_transposition(text: &str, key: &str) -> (r: String)
    ensures
        r@ == route_spec(text@, key@),
        r@.len() == text@.len(),
{
    proof {
        lemma_route_spec_len(text@, key@);
    }
    let t = chars_of(text);
    let w = key.unicode_len();
    if w == 0 {
        return string_of(&t);
    }
    let mut out: Vec<char> = Vec::new();
    for i in 0..w
        invariant
            w == key@.len(),
            w > 0,
            out@ == route_columns(t@, w as nat, i as nat),
    {
        let mut col = column_of(&t, w, i);
        if i % 2 == 0 {
            out.append(&mut col);
        } else {
            let n = col.len();
            let mut up: Vec<char> = Vec::new();
            for j in 0..n
                invariant
                    n == col.len(),
                    up@ == col@.reverse().take(j as int),
            {
                up.push(col[n - 1 - j]);
                proof {
                    assert(col@.reverse().take(j + 1) =~= col@.reverse().take(j as int).push(
                        col@[n - 1 - j],
                    ));
                }
            }
            proof {
                assert(col@.reverse().take(n as int) =~= col@.reverse());
            }
            out.append(&mut up);
        }
    }
    string_of(&out)
}

} // verus!
