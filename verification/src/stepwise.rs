//! Running tokens step by step gives what running them at once gives.
//!
//! This holds of every backend whose operations work row by row and whose
//! attention looks at nothing that lies in the future: see [`row_wise`].
use vstd::arithmetic::mul::*;
use vstd::prelude::*;

use crate::backend::{Arithmetic, Attention, Content};
use crate::config::Gemma4Config;
use crate::float::F32;
use crate::kvcache::{KvSlot, Memory};
use crate::model::{Flow, LayerWeights, Net};

verus! {

// --- row by row --------------------------------------------------------------------------------

/// Rows that can be put together.
pub open spec fn joins(x: Content, y: Content) -> bool {
    x.is_plain() && y.is_plain() && y.dims.len() > 0 && crate::backend::can_follow(Some(x), y)
}

/// Ids that a table knows.
pub open spec fn known(table: Content, ids: Seq<u32>) -> bool {
    forall|k: int| 0 <= k < ids.len() ==> #[trigger] ids[k] < table.dims[0]
}

pub open spec fn embed_splits(a: Arithmetic, table: Content, i: Seq<u32>, j: Seq<u32>, s: F32) -> bool {
    table.is_whole() && table.is_matrix() && known(table, i) && known(table, j) ==> {
        &&& (a.embed_of)(table, i, s).len() == i.len() * table.dims[1]
        &&& (a.embed_of)(table, j, s).len() == j.len() * table.dims[1]
        &&& (a.embed_of)(table, i + j, s) == (a.embed_of)(table, i, s) + (a.embed_of)(table, j, s)
    }
}

pub open spec fn norm_splits(a: Arithmetic, x: Content, y: Content, w: Option<Content>, eps: F32) -> bool {
    joins(x, y) && x.dims.last() > 0 && y.dims.last() == x.dims.last() && y.dims.len() > 1 ==> {
        &&& (a.norm_of)(x, w, eps).len() == x.cells.len()
        &&& (a.norm_of)(y, w, eps).len() == y.cells.len()
        &&& (a.norm_of)(x.followed_by(y), w, eps) == (a.norm_of)(x, w, eps) + (a.norm_of)(y, w, eps)
    }
}

pub open spec fn linear_splits(a: Arithmetic, x: Content, y: Content, w: Content) -> bool {
    joins(x, y) && x.is_matrix() && w.is_whole() && w.is_matrix() && w.dims[1] == x.dims[1] ==> {
        &&& (a.linear_of)(x, w).len() == x.dims[0] * w.dims[0]
        &&& (a.linear_of)(y, w).len() == y.dims[0] * w.dims[0]
        &&& (a.linear_of)(x.followed_by(y), w) == (a.linear_of)(x, w) + (a.linear_of)(y, w)
    }
}

/// Of an operation on two tensors of one shape.
pub open spec fn pair_splits(f: spec_fn(Content, Content) -> Seq<F32>, x: Content, y: Content, v: Content, w: Content) -> bool {
    joins(x, y) && joins(v, w) && v.dims == x.dims && w.dims == y.dims ==> {
        &&& f(x, v).len() == x.cells.len()
        &&& f(y, w).len() == y.cells.len()
        &&& f(x.followed_by(y), v.followed_by(w)) == f(x, v) + f(y, w)
    }
}

pub open spec fn scale_splits(a: Arithmetic, x: Content, y: Content, s: F32) -> bool {
    joins(x, y) ==> {
        &&& (a.scale_of)(x, s).len() == x.cells.len()
        &&& (a.scale_of)(y, s).len() == y.cells.len()
        &&& (a.scale_of)(x.followed_by(y), s) == (a.scale_of)(x, s) + (a.scale_of)(y, s)
    }
}

pub open spec fn rope_splits(
    a: Arithmetic,
    x: Content,
    y: Content,
    i: Seq<u32>,
    j: Seq<u32>,
    theta: F32,
    n: usize,
) -> bool {
    joins(x, y) && x.dims.len() == 3 && x.dims[0] == i.len() && y.dims[0] == j.len() && n <= x.dims[2] ==> {
        &&& (a.rope_of)(x, i, theta, n).len() == x.cells.len()
        &&& (a.rope_of)(y, j, theta, n).len() == y.cells.len()
        &&& (a.rope_of)(x.followed_by(y), i + j, theta, n) == (a.rope_of)(x, i, theta, n) + (a.rope_of)(
            y,
            j,
            theta,
            n,
        )
    }
}

/// Shapes that attention takes.
pub open spec fn can_attend(q: Content, k: Content, v: Content, o: Attention) -> bool {
    &&& q.is_plain()
    &&& k.is_plain()
    &&& v.is_plain()
    &&& q.dims.len() == 3
    &&& k.dims.len() == 3
    &&& v.dims == k.dims
    &&& k.dims[2] == q.dims[2]
    &&& q.dims[2] > 0
    &&& k.dims[1] > 0
    &&& q.dims[1] % k.dims[1] == 0
    &&& o.q_pos.len() == q.dims[0]
    &&& o.k_pos.len() == k.dims[0]
}

/// Options with other query positions.
pub open spec fn asking(o: Attention, q_pos: Seq<u32>) -> Attention {
    Attention { q_pos, ..o }
}

/// Options with other key positions.
pub open spec fn seeing(o: Attention, k_pos: Seq<u32>) -> Attention {
    Attention { k_pos, ..o }
}

/// Queries do not look at each other.
pub open spec fn queries_split(
    a: Arithmetic,
    x: Content,
    y: Content,
    k: Content,
    v: Content,
    o: Attention,
    i: Seq<u32>,
    j: Seq<u32>,
) -> bool {
    joins(x, y) && can_attend(x, k, v, asking(o, i)) && can_attend(y, k, v, asking(o, j)) ==> {
        &&& (a.attention_of)(x, k, v, asking(o, i)).len() == x.cells.len()
        &&& (a.attention_of)(y, k, v, asking(o, j)).len() == y.cells.len()
        &&& (a.attention_of)(x.followed_by(y), k, v, asking(o, i + j)) == (a.attention_of)(x, k, v, asking(o, i)) + (
        a.attention_of)(y, k, v, asking(o, j))
    }
}

/// All positions of one kind before all of another.
pub open spec fn earlier(i: Seq<u32>, j: Seq<u32>) -> bool {
    forall|x: int, y: int| 0 <= x < i.len() && 0 <= y < j.len() ==> #[trigger] i[x] < #[trigger] j[y]
}

/// Queries do not look at later keys.
pub open spec fn future_is_unseen(
    a: Arithmetic,
    q: Content,
    k: KvSlot<Content>,
    more: KvSlot<Content>,
    o: Attention,
    i: Seq<u32>,
    j: Seq<u32>,
) -> bool {
    joins(k.k, more.k) && joins(k.v, more.v) && can_attend(q, k.k, k.v, seeing(o, i)) && more.v.dims == more.k.dims
        && more.k.dims[0] == j.len() && earlier(o.q_pos, j) ==> (a.attention_of)(
        q,
        k.k.followed_by(more.k),
        k.v.followed_by(more.v),
        seeing(o, i + j),
    ) == (a.attention_of)(q, k.k, k.v, seeing(o, i))
}

/// An arithmetic that works row by row and does not look ahead.
pub open spec fn row_wise(a: Arithmetic) -> bool {
    &&& forall|table: Content, i: Seq<u32>, j: Seq<u32>, s: F32| #[trigger] embed_splits(a, table, i, j, s)
    &&& forall|x: Content, y: Content, w: Option<Content>, eps: F32| #[trigger] norm_splits(a, x, y, w, eps)
    &&& forall|x: Content, y: Content, w: Content| #[trigger] linear_splits(a, x, y, w)
    &&& forall|x: Content, y: Content, v: Content, w: Content| #[trigger] pair_splits(a.add_of, x, y, v, w)
    &&& forall|x: Content, y: Content, v: Content, w: Content| #[trigger] pair_splits(a.geglu_of, x, y, v, w)
    &&& forall|x: Content, y: Content, s: F32| #[trigger] scale_splits(a, x, y, s)
    &&& forall|x: Content, y: Content, i: Seq<u32>, j: Seq<u32>, theta: F32, n: usize| #[trigger]
        rope_splits(a, x, y, i, j, theta, n)
    &&& forall|x: Content, y: Content, k: Content, v: Content, o: Attention, i: Seq<u32>, j: Seq<u32>| #[trigger]
        queries_split(a, x, y, k, v, o, i, j)
    &&& forall|
        q: Content,
        k: KvSlot<Content>,
        more: KvSlot<Content>,
        o: Attention,
        i: Seq<u32>,
        j: Seq<u32>,
    | #[trigger] future_is_unseen(a, q, k, more, o, i, j)
}

// --- pieces ------------------------------------------------------------------------------------

/// A plain matrix of `t` rows and `n` columns.
spec fn is_mat(x: Content, t: nat, n: usize) -> bool {
    x.is_plain() && x.dims == seq![t as usize, n]
}

/// Plain heads of `t` rows.
spec fn is_heads(x: Content, t: nat, h: usize, d: usize) -> bool {
    x.is_plain() && x.dims == seq![t as usize, h, d]
}

proof fn lemma_mats_join(x: Content, y: Content, t: nat, u: nat, n: usize)
    requires
        is_mat(x, t, n),
        is_mat(y, u, n),
        t + u <= usize::MAX,
        (t + u) * n <= usize::MAX,
    ensures
        joins(x, y),
        is_mat(x.followed_by(y), t + u, n),
        x.cells.len() == t * n,
        y.cells.len() == u * n,
{
    crate::backend::product_of_two(t as usize, n);
    crate::backend::product_of_two(u as usize, n);
    crate::backend::product_of_two((t + u) as usize, n);
    lemma_mul_is_distributive_add_other_way(n as int, t as int, u as int);
    assert(x.dims.drop_first() =~= y.dims.drop_first());
    assert(x.followed_by(y).dims =~= seq![(t + u) as usize, n]);
}

proof fn lemma_heads_join(x: Content, y: Content, t: nat, u: nat, h: usize, d: usize)
    requires
        is_heads(x, t, h, d),
        is_heads(y, u, h, d),
        t + u <= usize::MAX,
        (t + u) * (h * d) <= usize::MAX,
    ensures
        joins(x, y),
        is_heads(x.followed_by(y), t + u, h, d),
        x.cells.len() == t * (h * d),
        y.cells.len() == u * (h * d),
{
    crate::backend::product_of_three(t as usize, h, d);
    crate::backend::product_of_three(u as usize, h, d);
    crate::backend::product_of_three((t + u) as usize, h, d);
    lemma_mul_is_associative(t as int, h as int, d as int);
    lemma_mul_is_associative(u as int, h as int, d as int);
    lemma_mul_is_associative((t + u) as int, h as int, d as int);
    lemma_mul_is_distributive_add_other_way(h * d, t as int, u as int);
    assert(x.dims.drop_first() =~= y.dims.drop_first());
    assert(x.followed_by(y).dims =~= seq![(t + u) as usize, h, d]);
}

proof fn lemma_normed(a: Arithmetic, x: Content, y: Content, w: Option<Content>, eps: F32, t: nat, u: nat, n: usize)
    requires
        row_wise(a),
        is_mat(x, t, n),
        is_mat(y, u, n),
        n > 0,
        t + u <= usize::MAX,
        (t + u) * n <= usize::MAX,
    ensures
        is_mat(crate::backend::normed(a, x, w, eps), t, n),
        is_mat(crate::backend::normed(a, y, w, eps), u, n),
        crate::backend::normed(a, x.followed_by(y), w, eps) == crate::backend::normed(a, x, w, eps).followed_by(
            crate::backend::normed(a, y, w, eps),
        ),
{
    lemma_mats_join(x, y, t, u, n);
    assert(norm_splits(a, x, y, w, eps));
    assert(crate::backend::normed(a, x.followed_by(y), w, eps) =~= crate::backend::normed(a, x, w, eps).followed_by(
        crate::backend::normed(a, y, w, eps),
    ));
}

proof fn lemma_projected(a: Arithmetic, x: Content, y: Content, w: Content, t: nat, u: nat, n: usize)
    requires
        row_wise(a),
        is_mat(x, t, n),
        is_mat(y, u, n),
        t + u <= usize::MAX,
        (t + u) * n <= usize::MAX,
        w.is_whole(),
        w.is_matrix(),
        w.dims[1] == n,
    ensures
        is_mat(crate::backend::projected(a, x, w), t, w.dims[0]),
        is_mat(crate::backend::projected(a, y, w), u, w.dims[0]),
        crate::backend::projected(a, x.followed_by(y), w) == crate::backend::projected(a, x, w).followed_by(
            crate::backend::projected(a, y, w),
        ),
{
    lemma_mats_join(x, y, t, u, n);
    assert(linear_splits(a, x, y, w));
    crate::backend::product_of_two(t as usize, w.dims[0]);
    crate::backend::product_of_two(u as usize, w.dims[0]);
    assert(crate::backend::projected(a, x.followed_by(y), w) =~= crate::backend::projected(a, x, w).followed_by(
        crate::backend::projected(a, y, w),
    ));
}

proof fn lemma_summed(a: Arithmetic, x: Content, y: Content, v: Content, w: Content, t: nat, u: nat, n: usize)
    requires
        row_wise(a),
        is_mat(x, t, n),
        is_mat(y, u, n),
        is_mat(v, t, n),
        is_mat(w, u, n),
        t + u <= usize::MAX,
        (t + u) * n <= usize::MAX,
    ensures
        is_mat(crate::backend::summed(a, x, v), t, n),
        is_mat(crate::backend::summed(a, y, w), u, n),
        crate::backend::summed(a, x.followed_by(y), v.followed_by(w)) == crate::backend::summed(a, x, v).followed_by(
            crate::backend::summed(a, y, w),
        ),
{
    lemma_mats_join(x, y, t, u, n);
    lemma_mats_join(v, w, t, u, n);
    assert(pair_splits(a.add_of, x, y, v, w));
    assert(crate::backend::summed(a, x.followed_by(y), v.followed_by(w)) =~= crate::backend::summed(
        a,
        x,
        v,
    ).followed_by(crate::backend::summed(a, y, w)));
}

proof fn lemma_gated(a: Arithmetic, x: Content, y: Content, v: Content, w: Content, t: nat, u: nat, n: usize)
    requires
        row_wise(a),
        is_mat(x, t, n),
        is_mat(y, u, n),
        is_mat(v, t, n),
        is_mat(w, u, n),
        t + u <= usize::MAX,
        (t + u) * n <= usize::MAX,
    ensures
        is_mat(crate::backend::gated(a, x, v), t, n),
        is_mat(crate::backend::gated(a, y, w), u, n),
        crate::backend::gated(a, x.followed_by(y), v.followed_by(w)) == crate::backend::gated(a, x, v).followed_by(
            crate::backend::gated(a, y, w),
        ),
{
    lemma_mats_join(x, y, t, u, n);
    lemma_mats_join(v, w, t, u, n);
    assert(pair_splits(a.geglu_of, x, y, v, w));
    assert(crate::backend::gated(a, x.followed_by(y), v.followed_by(w)) =~= crate::backend::gated(a, x, v).followed_by(
        crate::backend::gated(a, y, w),
    ));
}

proof fn lemma_rescaled(a: Arithmetic, x: Content, y: Content, s: Option<Content>, t: nat, u: nat, n: usize)
    requires
        row_wise(a),
        is_mat(x, t, n),
        is_mat(y, u, n),
        t + u <= usize::MAX,
        (t + u) * n <= usize::MAX,
    ensures
        is_mat(crate::model::rescaled(a, x, s), t, n),
        is_mat(crate::model::rescaled(a, y, s), u, n),
        crate::model::rescaled(a, x.followed_by(y), s) == crate::model::rescaled(a, x, s).followed_by(
            crate::model::rescaled(a, y, s),
        ),
{
    lemma_mats_join(x, y, t, u, n);
    if let Some(c) = s {
        assert(scale_splits(a, x, y, c.cells[0]));
        assert(crate::model::rescaled(a, x.followed_by(y), s) =~= crate::model::rescaled(a, x, s).followed_by(
            crate::model::rescaled(a, y, s),
        ));
    }
}

proof fn lemma_norm_added(
    a: Arithmetic,
    x: Content,
    y: Content,
    v: Content,
    w: Content,
    g: Content,
    eps: F32,
    s: Option<Content>,
    t: nat,
    u: nat,
    n: usize,
)
    requires
        row_wise(a),
        is_mat(x, t, n),
        is_mat(y, u, n),
        is_mat(v, t, n),
        is_mat(w, u, n),
        n > 0,
        t + u <= usize::MAX,
        (t + u) * n <= usize::MAX,
    ensures
        is_mat(crate::backend::norm_added(a, x, v, g, eps, s), t, n),
        is_mat(crate::backend::norm_added(a, y, w, g, eps, s), u, n),
        crate::backend::norm_added(a, x.followed_by(y), v.followed_by(w), g, eps, s) == crate::backend::norm_added(
            a,
            x,
            v,
            g,
            eps,
            s,
        ).followed_by(crate::backend::norm_added(a, y, w, g, eps, s)),
{
    lemma_normed(a, v, w, Some(g), eps, t, u, n);
    let (p, q) = (crate::backend::normed(a, v, Some(g), eps), crate::backend::normed(a, w, Some(g), eps));
    lemma_summed(a, x, y, p, q, t, u, n);
    lemma_rescaled(a, crate::backend::summed(a, x, p), crate::backend::summed(a, y, q), s, t, u, n);
}

proof fn lemma_columns(x: Content, y: Content, offset: int, width: usize, t: nat, u: nat, n: usize)
    requires
        is_mat(x, t, n),
        is_mat(y, u, n),
        t + u <= usize::MAX,
        (t + u) * n <= usize::MAX,
        0 <= offset,
        offset + width <= n,
    ensures
        is_mat(x.columns(offset, width as int), t, width),
        is_mat(y.columns(offset, width as int), u, width),
        x.followed_by(y).columns(offset, width as int) == x.columns(offset, width as int).followed_by(
            y.columns(offset, width as int),
        ),
{
    lemma_mats_join(x, y, t, u, n);
    let w = width as int;
    let (f, g, h) = (x.columns(offset, w), y.columns(offset, w), x.followed_by(y).columns(offset, w));
    crate::backend::product_of_two(t as usize, width);
    crate::backend::product_of_two(u as usize, width);
    assert(t * width + u * width == (t + u) * width && t * width >= 0 && u * width >= 0) by (nonlinear_arith);
    assert(f.dims =~= seq![t as usize, width]);
    assert(g.dims =~= seq![u as usize, width]);
    assert(h.dims =~= f.followed_by(g).dims);
    assert(h.cells.len() == f.cells.len() + g.cells.len());
    assert forall|c: int| 0 <= c < h.cells.len() implies h.cells[c] == #[trigger] (f.cells + g.cells)[c] by {
        lemma_cell_of_rows(c, (t + u) as int, w);
        let (r, k) = (c / w, c % w);
        if c < t * width {
            lemma_cell_of_rows(c, t as int, w);
            lemma_cell_in_rows(r, offset + k, t as int, n as int);
        } else {
            let d = c - t * width;
            lemma_cell_of_rows(d, u as int, w);
            lemma_cell_in_rows(d / w, offset + d % w, u as int, n as int);
            assert(c == (t + d / w) * w + d % w) by (nonlinear_arith)
                requires
                    c == t * w + d,
                    d == (d / w) * w + d % w,
            ;
            vstd::arithmetic::div_mod::lemma_fundamental_div_mod_converse(c, w, t + d / w, d % w);
            assert((t + d / w) * n == t * n + (d / w) * n) by (nonlinear_arith);
        }
    }
    assert(h.cells =~= f.cells + g.cells);
}

proof fn lemma_cell_of_rows(c: int, rows: int, n: int)
    requires
        0 <= c < rows * n,
        0 <= n,
        0 <= rows,
    ensures
        n > 0,
        0 <= c / n < rows,
        0 <= c % n < n,
        c == (c / n) * n + c % n,
{
    assert(n > 0) by (nonlinear_arith)
        requires
            0 <= c < rows * n,
            0 <= n,
    ;
    vstd::arithmetic::div_mod::lemma_fundamental_div_mod(c, n);
    vstd::arithmetic::div_mod::lemma_mod_bound(c, n);
    vstd::arithmetic::div_mod::lemma_div_pos_is_pos(c, n);
    assert(c / n < rows) by (nonlinear_arith)
        requires
            c == n * (c / n) + c % n,
            0 <= c % n,
            c < rows * n,
            n > 0,
    ;
    lemma_mul_is_commutative(n, c / n);
}

proof fn lemma_cell_in_rows(r: int, k: int, rows: int, n: int)
    requires
        0 <= r < rows,
        0 <= k < n,
    ensures
        0 <= r * n + k < rows * n,
{
    assert(0 <= r * n + k < rows * n) by (nonlinear_arith)
        requires
            0 <= r < rows,
            0 <= k < n,
    ;
}

/// Rows seen as heads, heads as rows.
proof fn lemma_reshaped(x: Content, y: Content, t: nat, u: nat, h: usize, d: usize)
    requires
        is_mat(x, t, (h * d) as usize),
        is_mat(y, u, (h * d) as usize),
        h * d <= usize::MAX,
        t + u <= usize::MAX,
        (t + u) * (h * d) <= usize::MAX,
    ensures
        is_heads(crate::model::as_heads(x, h, d), t, h, d),
        is_heads(crate::model::as_heads(y, h, d), u, h, d),
        crate::model::as_heads(x.followed_by(y), h, d) == crate::model::as_heads(x, h, d).followed_by(
            crate::model::as_heads(y, h, d),
        ),
{
    lemma_mats_join(x, y, t, u, (h * d) as usize);
    crate::backend::product_of_three(t as usize, h, d);
    crate::backend::product_of_three(u as usize, h, d);
    lemma_mul_is_associative(t as int, h as int, d as int);
    lemma_mul_is_associative(u as int, h as int, d as int);
    assert(crate::model::as_heads(x.followed_by(y), h, d) =~= crate::model::as_heads(x, h, d).followed_by(
        crate::model::as_heads(y, h, d),
    ));
}

proof fn lemma_flat(x: Content, t: nat, h: usize, d: usize)
    requires
        is_heads(x, t, h, d),
        t <= usize::MAX,
        t * (h * d) <= usize::MAX,
        d > 0,
    ensures
        t * h <= usize::MAX,
        is_mat(x.reshaped(seq![(t * h) as usize, d]), (t * h) as nat, d),
{
    crate::backend::product_of_three(t as usize, h, d);
    lemma_mul_is_associative(t as int, h as int, d as int);
    crate::backend::lemma_flat_heads(t as usize, h, d);
    crate::backend::product_of_two((t * h) as usize, d);
}

proof fn lemma_head_normed(
    a: Arithmetic,
    x: Content,
    y: Content,
    w: Option<Content>,
    eps: F32,
    t: nat,
    u: nat,
    h: usize,
    d: usize,
)
    requires
        row_wise(a),
        is_heads(x, t, h, d),
        is_heads(y, u, h, d),
        d > 0,
        t + u <= usize::MAX,
        (t + u) * (h * d) <= usize::MAX,
    ensures
        is_heads(crate::backend::head_normed(a, x, w, eps), t, h, d),
        is_heads(crate::backend::head_normed(a, y, w, eps), u, h, d),
        crate::backend::head_normed(a, x.followed_by(y), w, eps) == crate::backend::head_normed(
            a,
            x,
            w,
            eps,
        ).followed_by(crate::backend::head_normed(a, y, w, eps)),
{
    lemma_heads_join(x, y, t, u, h, d);
    let z = x.followed_by(y);
    assert(t * (h * d) <= (t + u) * (h * d) && u * (h * d) <= (t + u) * (h * d)) by (nonlinear_arith)
        requires
            h >= 0,
            d >= 0,
    ;
    lemma_flat(x, t, h, d);
    lemma_flat(y, u, h, d);
    lemma_flat(z, t + u, h, d);
    let (fx, fy) = (x.reshaped(seq![(t * h) as usize, d]), y.reshaped(seq![(u * h) as usize, d]));
    assert(t * h + u * h == (t + u) * h) by (nonlinear_arith);
    assert((t + u) * h * d == (t + u) * (h * d)) by (nonlinear_arith);
    lemma_mats_join(fx, fy, (t * h) as nat, (u * h) as nat, d);
    assert(z.reshaped(seq![((t + u) * h) as usize, d]) =~= fx.followed_by(fy));
    lemma_normed(a, fx, fy, w, eps, (t * h) as nat, (u * h) as nat, d);
    let (nx, ny) = (crate::backend::normed(a, fx, w, eps), crate::backend::normed(a, fy, w, eps));
    crate::backend::product_of_two((t * h) as usize, d);
    crate::backend::product_of_two((u * h) as usize, d);
    crate::backend::product_of_three(t as usize, h, d);
    crate::backend::product_of_three(u as usize, h, d);
    assert(crate::backend::head_normed(a, x, w, eps) == nx.reshaped(x.dims));
    assert(crate::backend::head_normed(a, y, w, eps) == ny.reshaped(y.dims));
    assert(crate::backend::head_normed(a, z, w, eps) =~= nx.reshaped(x.dims).followed_by(ny.reshaped(y.dims)));
}

/// Positions, and how far a layer of a network has room for them.
spec fn in_layer(c: Gemma4Config, i: int, t: nat, u: nat, h: usize) -> bool {
    &&& c.spec_head_dim(i) > 0
    &&& crate::model::rotary_dim(c, i) <= c.spec_head_dim(i)
    &&& t + u <= usize::MAX
    &&& (t + u) * (h * c.spec_head_dim(i)) <= usize::MAX
}

proof fn lemma_placed(
    a: Arithmetic,
    c: Gemma4Config,
    i: int,
    x: Content,
    y: Content,
    w: Option<Content>,
    p: Seq<u32>,
    q: Seq<u32>,
    h: usize,
)
    requires
        row_wise(a),
        is_heads(x, p.len(), h, c.spec_head_dim(i)),
        is_heads(y, q.len(), h, c.spec_head_dim(i)),
        in_layer(c, i, p.len(), q.len(), h),
    ensures
        is_heads(crate::model::placed(a, c, i, x, w, p), p.len(), h, c.spec_head_dim(i)),
        is_heads(crate::model::placed(a, c, i, y, w, q), q.len(), h, c.spec_head_dim(i)),
        crate::model::placed(a, c, i, x.followed_by(y), w, p + q) == crate::model::placed(
            a,
            c,
            i,
            x,
            w,
            p,
        ).followed_by(crate::model::placed(a, c, i, y, w, q)),
{
    let d = c.spec_head_dim(i);
    let (x1, y1) = match w {
        Some(_) => {
            lemma_head_normed(a, x, y, w, c.rms_norm_eps, p.len(), q.len(), h, d);
            (
                crate::backend::head_normed(a, x, w, c.rms_norm_eps),
                crate::backend::head_normed(a, y, w, c.rms_norm_eps),
            )
        },
        None => (x, y),
    };
    lemma_heads_join(x1, y1, p.len(), q.len(), h, d);
    let (theta, n) = (c.spec_rope_for(i).theta, crate::model::rotary_dim(c, i));
    assert(rope_splits(a, x1, y1, p, q, theta, n));
    assert(crate::backend::rotated(a, x1.followed_by(y1), p + q, theta, n) =~= crate::backend::rotated(
        a,
        x1,
        p,
        theta,
        n,
    ).followed_by(crate::backend::rotated(a, y1, q, theta, n)));
}

// --- one layer ---------------------------------------------------------------------------------

/// A layer of fitting weights, with room for `t` and then `u` rows after `s`.
spec fn layer_ready(c: Gemma4Config, i: int, l: LayerWeights<Content>, h: usize, p: usize, s: nat, t: nat, u: nat) -> bool {
    &&& c.wf()
    &&& 0 <= i < c.num_hidden_layers
    &&& h > 0
    &&& crate::model::layer_fits(c, i, l, h, p)
    &&& crate::model::layer_has_room(c, i, l, t + u, s + t + u)
    &&& s + t + u <= usize::MAX
    &&& (t + u) * h <= usize::MAX
}

proof fn lemma_queries(
    a: Arithmetic,
    c: Gemma4Config,
    i: int,
    l: LayerWeights<Content>,
    x: Content,
    y: Content,
    p: Seq<u32>,
    q: Seq<u32>,
    h: usize,
    w: usize,
    s: nat,
)
    requires
        row_wise(a),
        layer_ready(c, i, l, h, w, s, p.len(), q.len()),
        is_mat(x, p.len(), h),
        is_mat(y, q.len(), h),
    ensures
        is_heads(crate::model::queries(a, c, i, l, x, p), p.len(), c.num_attention_heads, c.spec_head_dim(i)),
        is_heads(crate::model::queries(a, c, i, l, y, q), q.len(), c.num_attention_heads, c.spec_head_dim(i)),
        crate::model::queries(a, c, i, l, x.followed_by(y), p + q) == crate::model::queries(
            a,
            c,
            i,
            l,
            x,
            p,
        ).followed_by(crate::model::queries(a, c, i, l, y, q)),
{
    let (hq, d) = (c.num_attention_heads, c.spec_head_dim(i));
    lemma_projected(a, x, y, l.q_proj, p.len(), q.len(), h);
    let (x1, y1) = (crate::backend::projected(a, x, l.q_proj), crate::backend::projected(a, y, l.q_proj));
    lemma_reshaped(x1, y1, p.len(), q.len(), hq, d);
    lemma_placed(
        a,
        c,
        i,
        crate::model::as_heads(x1, hq, d),
        crate::model::as_heads(y1, hq, d),
        l.q_norm,
        p,
        q,
        hq,
    );
}

/// Keys and values of a layer's own.
spec fn made(a: Arithmetic, c: Gemma4Config, i: int, l: LayerWeights<Content>, x: Content, p: Seq<u32>) -> KvSlot<Content> {
    KvSlot { k: crate::model::keys(a, c, i, l, x, p), v: crate::model::values(a, c, i, l, x) }
}

/// Two slots as one.
spec fn together(s: KvSlot<Content>, more: KvSlot<Content>) -> KvSlot<Content> {
    KvSlot { k: s.k.followed_by(more.k), v: s.v.followed_by(more.v) }
}

proof fn lemma_made(
    a: Arithmetic,
    c: Gemma4Config,
    i: int,
    l: LayerWeights<Content>,
    x: Content,
    y: Content,
    p: Seq<u32>,
    q: Seq<u32>,
    h: usize,
    w: usize,
    s: nat,
)
    requires
        row_wise(a),
        layer_ready(c, i, l, h, w, s, p.len(), q.len()),
        c.kv_source(i) == i,
        is_mat(x, p.len(), h),
        is_mat(y, q.len(), h),
    ensures
        crate::model::slot_fits(c, i, made(a, c, i, l, x, p), p.len()),
        crate::model::slot_fits(c, i, made(a, c, i, l, y, q), q.len()),
        made(a, c, i, l, x.followed_by(y), p + q) == together(made(a, c, i, l, x, p), made(a, c, i, l, y, q)),
{
    let (hkv, d) = (c.num_key_value_heads, c.spec_head_dim(i));
    let (t, u) = (p.len(), q.len());
    assert((t + u) * (hkv * d) <= (s + t + u) * (hkv * d)) by (nonlinear_arith)
        requires
            hkv >= 0,
            d >= 0,
    ;
    let (wk, wv) = (l.k_proj->0, l.v_proj->0);
    lemma_projected(a, x, y, wk, t, u, h);
    lemma_projected(a, x, y, wv, t, u, h);
    let (x1, y1) = (crate::backend::projected(a, x, wk), crate::backend::projected(a, y, wk));
    let (x2, y2) = (crate::backend::projected(a, x, wv), crate::backend::projected(a, y, wv));
    lemma_reshaped(x1, y1, t, u, hkv, d);
    lemma_reshaped(x2, y2, t, u, hkv, d);
    lemma_placed(a, c, i, crate::model::as_heads(x1, hkv, d), crate::model::as_heads(y1, hkv, d), l.k_norm, p, q, hkv);
    lemma_head_normed(
        a,
        crate::model::as_heads(x2, hkv, d),
        crate::model::as_heads(y2, hkv, d),
        None,
        c.rms_norm_eps,
        t,
        u,
        hkv,
        d,
    );
}

/// Attention of the first rows does not change when later rows come along,
/// and that of the later rows is what it would be alone.
proof fn lemma_attention(
    a: Arithmetic,
    c: Gemma4Config,
    i: int,
    l: LayerWeights<Content>,
    x: Content,
    y: Content,
    p: Seq<u32>,
    q: Seq<u32>,
    h: usize,
    w: usize,
    seen: Seq<u32>,
    slot: KvSlot<Content>,
    more: KvSlot<Content>,
)
    requires
        row_wise(a),
        seen.len() >= p.len(),
        layer_ready(c, i, l, h, w, (seen.len() - p.len()) as nat, p.len(), q.len()),
        is_mat(x, p.len(), h),
        is_mat(y, q.len(), h),
        crate::model::slot_fits(c, i, slot, seen.len()),
        crate::model::slot_fits(c, i, more, q.len()),
        earlier(p, q),
    ensures
        is_mat(crate::model::attention_out(a, c, i, l, x, p, slot, seen), p.len(), h),
        is_mat(crate::model::attention_out(a, c, i, l, y, q, together(slot, more), seen + q), q.len(), h),
        crate::model::attention_out(a, c, i, l, x.followed_by(y), p + q, together(slot, more), seen + q)
            == crate::model::attention_out(a, c, i, l, x, p, slot, seen).followed_by(
            crate::model::attention_out(a, c, i, l, y, q, together(slot, more), seen + q),
        ),
{
    let (hq, hkv, d) = (c.num_attention_heads, c.num_key_value_heads, c.spec_head_dim(i));
    let (t, u) = (p.len(), q.len());
    let s = (seen.len() - t) as nat;
    lemma_queries(a, c, i, l, x, y, p, q, h, w, s);
    let (f, g) = (crate::model::queries(a, c, i, l, x, p), crate::model::queries(a, c, i, l, y, q));
    let full = together(slot, more);
    lemma_heads_join(slot.k, more.k, seen.len(), u, hkv, d);
    lemma_heads_join(slot.v, more.v, seen.len(), u, hkv, d);
    lemma_heads_join(f, g, t, u, hq, d);
    let o = crate::model::attention_options(c, i, p + q, seen + q);
    assert(asking(o, p + q) == o);
    assert(asking(o, p) == crate::model::attention_options(c, i, p, seen + q));
    assert(asking(o, q) == crate::model::attention_options(c, i, q, seen + q));
    assert(queries_split(a, f, g, full.k, full.v, o, p, q));
    let early = crate::model::attention_options(c, i, p, seen);
    assert(seeing(early, seen + q) == asking(o, p));
    assert(seeing(early, seen) == early);
    assert(future_is_unseen(a, f, slot, more, early, seen, q));
    let n = (hq * d) as usize;
    let (f1, g1) = (
        crate::backend::attended(a, f, slot.k, slot.v, early),
        crate::backend::attended(a, g, full.k, full.v, asking(o, q)),
    );
    assert(crate::backend::attended(a, f.followed_by(g), full.k, full.v, o) =~= f1.followed_by(g1));
    crate::backend::product_of_two(t as usize, n);
    crate::backend::product_of_two(u as usize, n);
    lemma_projected(a, f1, g1, l.o_proj, t, u, n);
}

proof fn lemma_after_attention(
    a: Arithmetic,
    c: Gemma4Config,
    i: int,
    l: LayerWeights<Content>,
    x: Content,
    y: Content,
    v: Content,
    w: Content,
    e: Content,
    g: Content,
    t: nat,
    u: nat,
    h: usize,
    p: usize,
    s: nat,
)
    requires
        row_wise(a),
        layer_ready(c, i, l, h, p, s, t, u),
        is_mat(x, t, h),
        is_mat(y, u, h),
        is_mat(v, t, h),
        is_mat(w, u, h),
        is_mat(e, t, p),
        is_mat(g, u, p),
        (t + u) * p <= usize::MAX,
    ensures
        ({
            let f = |r: Content, attn: Content, ple: Content|
                crate::model::after_embedding(
                    a,
                    c,
                    i,
                    l,
                    crate::model::after_feed_forward(a, c, l, crate::model::after_attention(a, c, l, r, attn)),
                    ple,
                );
            &&& is_mat(f(x, v, e), t, h)
            &&& is_mat(f(y, w, g), u, h)
            &&& f(x.followed_by(y), v.followed_by(w), e.followed_by(g)) == f(x, v, e).followed_by(f(y, w, g))
        }),
{
    let eps = c.rms_norm_eps;
    lemma_norm_added(a, x, y, v, w, l.post_attn_ln, eps, None, t, u, h);
    let (x1, y1) = (crate::model::after_attention(a, c, l, x, v), crate::model::after_attention(a, c, l, y, w));
    lemma_feed_forward(a, c, i, l, x1, y1, t, u, h, p, s);
    let (x2, y2) = (crate::model::after_feed_forward(a, c, l, x1), crate::model::after_feed_forward(a, c, l, y1));
    lemma_embedding(a, c, i, l, x2, y2, e, g, t, u, h, p, s);
}

proof fn lemma_feed_forward(
    a: Arithmetic,
    c: Gemma4Config,
    i: int,
    l: LayerWeights<Content>,
    x: Content,
    y: Content,
    t: nat,
    u: nat,
    h: usize,
    p: usize,
    s: nat,
)
    requires
        row_wise(a),
        layer_ready(c, i, l, h, p, s, t, u),
        is_mat(x, t, h),
        is_mat(y, u, h),
    ensures
        is_mat(crate::model::after_feed_forward(a, c, l, x), t, h),
        is_mat(crate::model::after_feed_forward(a, c, l, y), u, h),
        crate::model::after_feed_forward(a, c, l, x.followed_by(y)) == crate::model::after_feed_forward(
            a,
            c,
            l,
            x,
        ).followed_by(crate::model::after_feed_forward(a, c, l, y)),
{
    let eps = c.rms_norm_eps;
    let n = l.gate_proj.dims[0];
    lemma_normed(a, x, y, Some(l.pre_ffn_ln), eps, t, u, h);
    let (x1, y1) = (
        crate::backend::normed(a, x, Some(l.pre_ffn_ln), eps),
        crate::backend::normed(a, y, Some(l.pre_ffn_ln), eps),
    );
    lemma_projected(a, x1, y1, l.gate_proj, t, u, h);
    lemma_projected(a, x1, y1, l.up_proj, t, u, h);
    let (x2, y2) = (crate::backend::projected(a, x1, l.gate_proj), crate::backend::projected(a, y1, l.gate_proj));
    let (x3, y3) = (crate::backend::projected(a, x1, l.up_proj), crate::backend::projected(a, y1, l.up_proj));
    lemma_gated(a, x2, y2, x3, y3, t, u, n);
    let (x4, y4) = (crate::backend::gated(a, x2, x3), crate::backend::gated(a, y2, y3));
    lemma_projected(a, x4, y4, l.down_proj, t, u, n);
    let (x5, y5) = (crate::backend::projected(a, x4, l.down_proj), crate::backend::projected(a, y4, l.down_proj));
    lemma_norm_added(a, x, y, x5, y5, l.post_ffn_ln, eps, None, t, u, h);
}

proof fn lemma_embedding(
    a: Arithmetic,
    c: Gemma4Config,
    i: int,
    l: LayerWeights<Content>,
    x: Content,
    y: Content,
    e: Content,
    g: Content,
    t: nat,
    u: nat,
    h: usize,
    p: usize,
    s: nat,
)
    requires
        row_wise(a),
        layer_ready(c, i, l, h, p, s, t, u),
        is_mat(x, t, h),
        is_mat(y, u, h),
        is_mat(e, t, p),
        is_mat(g, u, p),
        (t + u) * p <= usize::MAX,
    ensures
        is_mat(crate::model::after_embedding(a, c, i, l, x, e), t, h),
        is_mat(crate::model::after_embedding(a, c, i, l, y, g), u, h),
        crate::model::after_embedding(a, c, i, l, x.followed_by(y), e.followed_by(g)) == crate::model::after_embedding(
            a,
            c,
            i,
            l,
            x,
            e,
        ).followed_by(crate::model::after_embedding(a, c, i, l, y, g)),
{
    let eps = c.rms_norm_eps;
    match (l.ple_gate, l.ple_proj) {
        (Some(gate), Some(proj)) => {
            let n = gate.dims[0];
            let at = i * c.hidden_size_per_layer_input;
            assert(at >= 0) by (nonlinear_arith)
                requires
                    at == i * c.hidden_size_per_layer_input,
                    i >= 0,
            ;
            lemma_projected(a, x, y, gate, t, u, h);
            let (x1, y1) = (crate::backend::projected(a, x, gate), crate::backend::projected(a, y, gate));
            lemma_columns(e, g, at, n, t, u, p);
            let (e1, g1) = (e.columns(at, n as int), g.columns(at, n as int));
            lemma_gated(a, x1, y1, e1, g1, t, u, n);
            let (x2, y2) = (crate::backend::gated(a, x1, e1), crate::backend::gated(a, y1, g1));
            lemma_projected(a, x2, y2, proj, t, u, n);
            let (x3, y3) = (crate::backend::projected(a, x2, proj), crate::backend::projected(a, y2, proj));
            match l.ple_norm {
                Some(w) => {
                    lemma_norm_added(a, x, y, x3, y3, w, eps, l.layer_scalar, t, u, h);
                },
                None => {
                    lemma_summed(a, x, y, x3, y3, t, u, h);
                    let (x4, y4) = (crate::backend::summed(a, x, x3), crate::backend::summed(a, y, y3));
                    lemma_rescaled(a, x4, y4, l.layer_scalar, t, u, h);
                },
            }
        },
        _ => {
            lemma_rescaled(a, x, y, l.layer_scalar, t, u, h);
        },
    }
}

// --- all layers --------------------------------------------------------------------------------

/// A slot has what another has, and `u` more.
spec fn extends(c: Gemma4Config, i: int, more: Option<KvSlot<Content>>, some: Option<KvSlot<Content>>, u: nat) -> bool {
    exists|new: KvSlot<Content>| #[trigger] extended_by(c, i, more, some, new, u)
}

spec fn extended_by(
    c: Gemma4Config,
    i: int,
    more: Option<KvSlot<Content>>,
    some: Option<KvSlot<Content>>,
    new: KvSlot<Content>,
    u: nat,
) -> bool {
    &&& crate::model::slot_fits(c, i, new, u)
    &&& some is Some
    &&& more == Some(together(some->0, new))
}

/// Where two runs stand after the same layers as the run of both at once:
/// `f` is the run at once, `x` the first, `y` the second, which started from
/// the slots `mid` that the first will end with; `m` are the slots at the very
/// start.
spec fn in_step(
    c: Gemma4Config,
    n: int,
    f: Flow,
    x: Flow,
    y: Flow,
    m: Seq<Option<KvSlot<Content>>>,
    mid: Seq<Option<KvSlot<Content>>>,
    s: nat,
    t: nat,
    u: nat,
    h: usize,
) -> bool {
    &&& is_mat(x.h, t, h)
    &&& is_mat(y.h, u, h)
    &&& f.h == x.h.followed_by(y.h)
    &&& f.kv.len() == m.len()
    &&& x.kv.len() == m.len()
    &&& y.kv.len() == m.len()
    &&& mid.len() == m.len()
    &&& m.len() == c.num_hidden_layers
    &&& forall|j: int| 0 <= j < m.len() ==> #[trigger] slot_in_step(c, n, j, f.kv[j], x.kv[j], y.kv[j], m[j], mid[j], s, t, u)
}

spec fn slot_in_step(
    c: Gemma4Config,
    n: int,
    j: int,
    f: Option<KvSlot<Content>>,
    x: Option<KvSlot<Content>>,
    y: Option<KvSlot<Content>>,
    m: Option<KvSlot<Content>>,
    mid: Option<KvSlot<Content>>,
    s: nat,
    t: nat,
    u: nat,
) -> bool {
    if j < n && c.kv_source(j) == j {
        &&& f == y
        &&& x == mid
        &&& x is Some
        &&& crate::model::slot_fits(c, j, x->0, s + t)
        &&& extends(c, j, f, x, u)
    } else {
        &&& f == m
        &&& x == m
        &&& y == mid
    }
}

proof fn lemma_together_three(m: KvSlot<Content>, k: KvSlot<Content>, l: KvSlot<Content>)
    requires
        joins(m.k, k.k),
        joins(m.v, k.v),
        joins(k.k, l.k),
        joins(k.v, l.v),
        m.k.dims[0] + k.k.dims[0] + l.k.dims[0] <= usize::MAX,
        m.v.dims[0] + k.v.dims[0] + l.v.dims[0] <= usize::MAX,
    ensures
        together(m, together(k, l)) == together(together(m, k), l),
{
    let (p, q) = (together(m, together(k, l)), together(together(m, k), l));
    assert(p.k =~= q.k);
    assert(p.v =~= q.v);
}

/// Slots change only where a source layer comes by.
proof fn lemma_through_slots(
    net: Net,
    a: Arithmetic,
    n: int,
    start: Flow,
    ple: Content,
    p: Seq<u32>,
    k_pos: Seq<u32>,
)
    requires
        0 <= n <= start.kv.len(),
    ensures
        net.through(a, n, start, ple, p, k_pos).kv.len() == start.kv.len(),
        forall|j: int|
            0 <= j < start.kv.len() && (j >= n || net.config.kv_source(j) != j) ==> #[trigger] net.through(
                a,
                n,
                start,
                ple,
                p,
                k_pos,
            ).kv[j] == start.kv[j],
    decreases n,
{
    if n > 0 {
        lemma_through_slots(net, a, n - 1, start, ple, p, k_pos);
    }
}

proof fn lemma_slots_last(
    net: Net,
    a: Arithmetic,
    n: int,
    last: int,
    start: Flow,
    ple: Content,
    p: Seq<u32>,
    k_pos: Seq<u32>,
)
    requires
        0 <= n <= last <= start.kv.len(),
    ensures
        forall|j: int|
            0 <= j < n ==> #[trigger] net.through(a, last, start, ple, p, k_pos).kv[j] == net.through(
                a,
                n,
                start,
                ple,
                p,
                k_pos,
            ).kv[j],
    decreases last - n,
{
    if n < last {
        lemma_slots_last(net, a, n, last - 1, start, ple, p, k_pos);
        lemma_through_slots(net, a, last - 1, start, ple, p, k_pos);
    }
}

/// One more layer keeps the runs in step.
#[verifier::rlimit(60)]
proof fn lemma_layer_in_step(
    net: Net,
    a: Arithmetic,
    i: int,
    f: Flow,
    x: Flow,
    y: Flow,
    m: Memory,
    mid: Seq<Option<KvSlot<Content>>>,
    e: Content,
    g: Content,
    p: Seq<u32>,
    q: Seq<u32>,
)
    requires
        row_wise(a),
        net.fits(),
        net.owns(m),
        net.has_room(m.positions.len(), p.len() + q.len()),
        0 <= i < net.layers.len(),
        earlier(p, q),
        is_mat(e, p.len(), net.per_layer_width()),
        is_mat(g, q.len(), net.per_layer_width()),
        in_step(net.config, i, f, x, y, m.kv, mid, m.positions.len(), p.len(), q.len(), net.width()),
        net.config.kv_source(i) == i ==> mid[i] == crate::model::layer_out(
            a,
            net.config,
            i,
            net.layers[i],
            x,
            e,
            p,
            m.positions + p,
        ).kv[i],
    ensures
        in_step(
            net.config,
            i + 1,
            crate::model::layer_out(
                a,
                net.config,
                i,
                net.layers[i],
                f,
                e.followed_by(g),
                p + q,
                m.positions + p + q,
            ),
            crate::model::layer_out(a, net.config, i, net.layers[i], x, e, p, m.positions + p),
            crate::model::layer_out(a, net.config, i, net.layers[i], y, g, q, m.positions + p + q),
            m.kv,
            mid,
            m.positions.len(),
            p.len(),
            q.len(),
            net.width(),
        ),
{
    let c = net.config;
    let l = net.layers[i];
    let (s, t, u) = (m.positions.len(), p.len(), q.len());
    let h = net.width();
    let w = net.per_layer_width();
    let eps = c.rms_norm_eps;
    assert(crate::model::layer_fits(c, i, l, h, w));
    assert(crate::model::layer_has_room(c, i, l, t + u, s + (t + u)));
    assert(layer_ready(c, i, l, h, w, s, t, u));
    let seen = m.positions + p;
    lemma_normed(a, x.h, y.h, Some(l.input_ln), eps, t, u, h);
    let (x1, y1) = (
        crate::backend::normed(a, x.h, Some(l.input_ln), eps),
        crate::backend::normed(a, y.h, Some(l.input_ln), eps),
    );
    let f1 = x1.followed_by(y1);
    let fkv = crate::model::slots_after(a, c, i, l, f1, p + q, Memory { kv: f.kv, positions: seen + q });
    let xkv = crate::model::slots_after(a, c, i, l, x1, p, Memory { kv: x.kv, positions: seen });
    let ykv = crate::model::slots_after(a, c, i, l, y1, q, Memory { kv: y.kv, positions: seen + q });
    c.source_fits_layer(i);
    let src = c.kv_source(i);
    assert(slot_in_step(c, i, i, f.kv[i], x.kv[i], y.kv[i], m.kv[i], mid[i], s, t, u));
    if src == i {
        lemma_made(a, c, i, l, x1, y1, p, q, h, w, s);
        let (k, n) = (made(a, c, i, l, x1, p), made(a, c, i, l, y1, q));
        let (hkv, d) = (c.num_key_value_heads, c.spec_head_dim(i));
        assert((t + u) * (hkv * d) <= (s + t + u) * (hkv * d) && (s + t) * (hkv * d) <= (s + t + u) * (hkv * d))
            by (nonlinear_arith)
            requires
                hkv >= 0,
                d >= 0,
        ;
        lemma_heads_join(k.k, n.k, t, u, hkv, d);
        lemma_heads_join(k.v, n.v, t, u, hkv, d);
        match m.kv[i] {
            Some(o) => {
                assert(crate::model::slot_fits(c, i, o, s));
                lemma_heads_join(o.k, k.k, s, t, hkv, d);
                lemma_heads_join(o.v, k.v, s, t, hkv, d);
                lemma_together_three(o, k, n);
                assert(xkv[i] == Some(together(o, k)));
                assert(fkv[i] == Some(together(o, together(k, n))));
            },
            None => {
                assert(s == 0);
                assert(xkv[i] == Some(k));
                assert(fkv[i] == Some(together(k, n)));
            },
        }
        assert(mid[i] == xkv[i]);
        assert(ykv[i] == Some(together(xkv[i]->0, n)));
        assert(extended_by(c, i, fkv[i], xkv[i], n, u));
        assert(crate::model::slot_fits(c, i, xkv[i]->0, s + t));
    } else {
        assert(slot_in_step(c, i, src, f.kv[src], x.kv[src], y.kv[src], m.kv[src], mid[src], s, t, u));
    }
    assert(slot_in_step(c, i + 1, src, fkv[src], xkv[src], ykv[src], m.kv[src], mid[src], s, t, u));
    let new = choose|new: KvSlot<Content>| #[trigger] extended_by(c, src, fkv[src], xkv[src], new, u);
    assert(extended_by(c, src, fkv[src], xkv[src], new, u));
    let slot = xkv[src]->0;
    lemma_attention(a, c, i, l, x1, y1, p, q, h, w, seen, slot, new);
    let (x2, y2) = (
        crate::model::attention_out(a, c, i, l, x1, p, slot, seen),
        crate::model::attention_out(a, c, i, l, y1, q, together(slot, new), seen + q),
    );
    lemma_after_attention(a, c, i, l, x.h, y.h, x2, y2, e, g, t, u, h, w, s);
    assert forall|j: int| 0 <= j < m.kv.len() implies #[trigger] slot_in_step(
        c,
        i + 1,
        j,
        fkv[j],
        xkv[j],
        ykv[j],
        m.kv[j],
        mid[j],
        s,
        t,
        u,
    ) by {
        assert(slot_in_step(c, i, j, f.kv[j], x.kv[j], y.kv[j], m.kv[j], mid[j], s, t, u));
    }
}

proof fn lemma_embedded(a: Arithmetic, table: Content, i: Seq<u32>, j: Seq<u32>, scale: F32)
    requires
        row_wise(a),
        table.is_whole(),
        table.is_matrix(),
        known(table, i),
        known(table, j),
        i.len() + j.len() <= usize::MAX,
    ensures
        is_mat(crate::backend::embedded(a, table, i, scale), i.len(), table.dims[1]),
        is_mat(crate::backend::embedded(a, table, j, scale), j.len(), table.dims[1]),
        crate::backend::embedded(a, table, i + j, scale) == crate::backend::embedded(a, table, i, scale).followed_by(
            crate::backend::embedded(a, table, j, scale),
        ),
{
    assert(embed_splits(a, table, i, j, scale));
    crate::backend::product_of_two(i.len() as usize, table.dims[1]);
    crate::backend::product_of_two(j.len() as usize, table.dims[1]);
    assert(crate::backend::embedded(a, table, i + j, scale) =~= crate::backend::embedded(
        a,
        table,
        i,
        scale,
    ).followed_by(crate::backend::embedded(a, table, j, scale)));
}

/// Tokens that a network knows.
spec fn knows(net: Net, ids: Seq<u32>) -> bool {
    known(net.top.embed, ids) && known(net.top.embed_per_layer, ids)
}

proof fn lemma_per_layer(net: Net, a: Arithmetic, i: Seq<u32>, j: Seq<u32>, s: nat)
    requires
        row_wise(a),
        net.fits(),
        net.has_room(s, i.len() + j.len()),
        knows(net, i),
        knows(net, j),
    ensures
        is_mat(net.per_layer(a, i), i.len(), net.per_layer_width()),
        is_mat(net.per_layer(a, j), j.len(), net.per_layer_width()),
        net.per_layer(a, i + j) == net.per_layer(a, i).followed_by(net.per_layer(a, j)),
{
    let (t, u) = (i.len(), j.len());
    let c = net.config;
    let (l, dple, eps) = (c.num_hidden_layers, c.hidden_size_per_layer_input, c.rms_norm_eps);
    let h = net.width();
    let scale = F32::spec_of_int(dple as int).spec_root();
    lemma_embedded(a, net.top.embed, i, j, F32::spec_of_int(c.hidden_size as int).spec_root());
    lemma_embedded(a, net.top.embed_per_layer, i, j, scale);
    let (e, g) = (
        crate::backend::embedded(a, net.top.embed_per_layer, i, scale),
        crate::backend::embedded(a, net.top.embed_per_layer, j, scale),
    );
    match (net.top.ple_proj, net.top.ple_proj_norm) {
        (Some(w), Some(norm)) => {
            let n = (l * dple) as usize;
            let (x, y) = (net.embedding(a, i), net.embedding(a, j));
            lemma_projected(a, x, y, w, t, u, h);
            let (x1, y1) = (crate::backend::projected(a, x, w), crate::backend::projected(a, y, w));
            lemma_mats_join(x1, y1, t, u, n);
            // As heads, one per layer.
            lemma_reshaped(x1, y1, t, u, l, dple);
            let (x2, y2) = (crate::model::as_heads(x1, l, dple), crate::model::as_heads(y1, l, dple));
            lemma_head_normed(a, x2, y2, Some(norm), eps, t, u, l, dple);
            lemma_heads_join(x2, y2, t, u, l, dple);
            let (x3, y3) = (
                crate::backend::head_normed(a, x2, Some(norm), eps),
                crate::backend::head_normed(a, y2, Some(norm), eps),
            );
            lemma_heads_join(x3, y3, t, u, l, dple);
            let (x4, y4) = (x3.reshaped(seq![t as usize, n]), y3.reshaped(seq![u as usize, n]));
            crate::backend::product_of_two(t as usize, n);
            crate::backend::product_of_two(u as usize, n);
            let z1 = crate::backend::projected(a, net.embedding(a, i + j), w);
            let z3 = crate::backend::head_normed(a, x2.followed_by(y2), Some(norm), eps);
            assert(z1.reshaped(seq![((t + u) * l) as usize, dple]) == crate::model::as_heads(z1, l, dple).reshaped(
                seq![((t + u) * l) as usize, dple],
            ));
            assert(z3.reshaped(seq![(t + u) as usize, n]) =~= x4.followed_by(y4));
            lemma_summed(a, x4, y4, e, g, t, u, n);
            let (x5, y5) = (crate::backend::summed(a, x4, e), crate::backend::summed(a, y4, g));
            lemma_mats_join(x5, y5, t, u, n);
            let r = F32(crate::model::HALF_ROOT);
            assert(scale_splits(a, x5, y5, r));
            assert(crate::backend::scaled(a, x5.followed_by(y5), r) =~= crate::backend::scaled(a, x5, r).followed_by(
                crate::backend::scaled(a, y5, r),
            ));
            assert(net.per_layer(a, i) == crate::backend::scaled(a, x5, r));
            assert(net.per_layer(a, j) == crate::backend::scaled(a, y5, r));
            assert((i + j).len() == t + u);
            assert(net.per_layer(a, i + j) == crate::backend::scaled(a, x5.followed_by(y5), r));
        },
        _ => {},
    }
}

proof fn lemma_runs_in_step(net: Net, a: Arithmetic, n: int, m: Memory, i: Seq<u32>, j: Seq<u32>, p: Seq<u32>, q: Seq<u32>)
    requires
        row_wise(a),
        net.fits(),
        net.owns(m),
        net.takes(m, i + j, p + q),
        p.len() == i.len(),
        earlier(p, q),
        0 <= n <= net.layers.len(),
    ensures
        ({
            let mid = net.remembered(a, m, i, p).kv;
            in_step(
                net.config,
                n,
                net.through(
                    a,
                    n,
                    Flow { h: net.embedding(a, i + j), kv: m.kv },
                    net.per_layer(a, i + j),
                    p + q,
                    m.positions + p + q,
                ),
                net.through(
                    a,
                    n,
                    Flow { h: net.embedding(a, i), kv: m.kv },
                    net.per_layer(a, i),
                    p,
                    m.positions + p,
                ),
                net.through(
                    a,
                    n,
                    Flow { h: net.embedding(a, j), kv: mid },
                    net.per_layer(a, j),
                    q,
                    m.positions + p + q,
                ),
                m.kv,
                mid,
                m.positions.len(),
                p.len(),
                q.len(),
                net.width(),
            )
        }),
    decreases n,
{
    let c = net.config;
    let last = net.layers.len() as int;
    let (s, t, u) = (m.positions.len(), p.len(), q.len());
    let mid = net.remembered(a, m, i, p).kv;
    let x0 = Flow { h: net.embedding(a, i), kv: m.kv };
    let seen = m.positions + p;
    assert(knows(net, i)) by {
        assert forall|k: int| 0 <= k < i.len() implies #[trigger] i[k] < net.top.embed.dims[0] && i[k]
            < net.top.embed_per_layer.dims[0] by {
            assert((i + j)[k] == i[k]);
        }
    }
    assert(knows(net, j)) by {
        assert forall|k: int| 0 <= k < j.len() implies #[trigger] j[k] < net.top.embed.dims[0] && j[k]
            < net.top.embed_per_layer.dims[0] by {
            assert((i + j)[i.len() + k] == j[k]);
        }
    }
    lemma_per_layer(net, a, i, j, s);
    lemma_embedded(a, net.top.embed, i, j, F32::spec_of_int(c.hidden_size as int).spec_root());
    lemma_through_slots(net, a, last, x0, net.per_layer(a, i), p, seen);
    if n == 0 {
        let (f, x, y) = (
            Flow { h: net.embedding(a, i + j), kv: m.kv },
            x0,
            Flow { h: net.embedding(a, j), kv: mid },
        );
        assert forall|k: int| 0 <= k < m.kv.len() implies #[trigger] slot_in_step(
            c,
            0,
            k,
            f.kv[k],
            x.kv[k],
            y.kv[k],
            m.kv[k],
            mid[k],
            s,
            t,
            u,
        ) by {}
    } else {
        lemma_runs_in_step(net, a, n - 1, m, i, j, p, q);
        lemma_slots_last(net, a, n, last, x0, net.per_layer(a, i), p, seen);
        assert(net.through(a, last, x0, net.per_layer(a, i), p, seen).kv[n - 1] == net.through(
            a,
            n,
            x0,
            net.per_layer(a, i),
            p,
            seen,
        ).kv[n - 1]);
        lemma_layer_in_step(
            net,
            a,
            n - 1,
            net.through(
                a,
                n - 1,
                Flow { h: net.embedding(a, i + j), kv: m.kv },
                net.per_layer(a, i + j),
                p + q,
                seen + q,
            ),
            net.through(a, n - 1, x0, net.per_layer(a, i), p, seen),
            net.through(
                a,
                n - 1,
                Flow { h: net.embedding(a, j), kv: mid },
                net.per_layer(a, j),
                q,
                seen + q,
            ),
            m,
            mid,
            net.per_layer(a, i),
            net.per_layer(a, j),
            p,
            q,
        );
    }
}

/// Step by step as at once: tokens run in two goes, the later ones at later
/// positions, give the logits that they give in one go, and leave the same
/// keys and values behind.
pub proof fn two_goes_are_one(net: Net, a: Arithmetic, m: Memory, i: Seq<u32>, j: Seq<u32>, p: Seq<u32>, q: Seq<u32>)
    requires
        row_wise(a),
        net.fits(),
        net.owns(m),
        net.takes(m, i + j, p + q),
        p.len() == i.len(),
        i.len() > 0,
        j.len() > 0,
        earlier(p, q),
    ensures
        net.takes(m, i, p),
        net.owns(net.remembered(a, m, i, p)),
        net.takes(net.remembered(a, m, i, p), j, q),
        net.logits(a, net.remembered(a, m, i, p), j, q) == net.logits(a, m, i + j, p + q),
        net.remembered(a, net.remembered(a, m, i, p), j, q) == net.remembered(a, m, i + j, p + q),
{
    let c = net.config;
    let last = net.layers.len() as int;
    let (s, t, u) = (m.positions.len(), p.len(), q.len());
    let mid = net.remembered(a, m, i, p);
    let h = net.width();
    assert(m.positions + (p + q) =~= m.positions + p + q);
    lemma_runs_in_step(net, a, last, m, i, j, p, q);
    let f = net.run(a, m, i + j, p + q);
    let x = net.run(a, m, i, p);
    let y = net.run(a, mid, j, q);
    assert(in_step(c, last, f, x, y, m.kv, mid.kv, s, t, u, h));
    // The slots.
    assert forall|k: int| 0 <= k < m.kv.len() implies f.kv[k] == #[trigger] y.kv[k] by {
        assert(slot_in_step(c, last, k, f.kv[k], x.kv[k], y.kv[k], m.kv[k], mid.kv[k], s, t, u));
        lemma_through_slots(
            net,
            a,
            last,
            Flow { h: net.embedding(a, i), kv: m.kv },
            net.per_layer(a, i),
            p,
            m.positions + p,
        );
    }
    assert(f.kv =~= y.kv);
    assert forall|k: int| 0 <= k < mid.kv.len() && c.kv_source(k) == k implies match #[trigger] mid.kv[k] {
        Some(sl) => crate::model::slot_fits(c, k, sl, s + t),
        None => s + t == 0,
    } by {
        assert(slot_in_step(c, last, k, f.kv[k], x.kv[k], y.kv[k], m.kv[k], mid.kv[k], s, t, u));
    }
    // The logits.
    lemma_normed(a, x.h, y.h, Some(net.top.final_norm), c.rms_norm_eps, t, u, h);
    let (xn, yn) = (
        crate::backend::normed(a, x.h, Some(net.top.final_norm), c.rms_norm_eps),
        crate::backend::normed(a, y.h, Some(net.top.final_norm), c.rms_norm_eps),
    );
    lemma_last_row(xn, yn, t, u, h);
    // Room for each.
    assert forall|k: int| 0 <= k < net.layers.len() implies crate::model::layer_has_room(
        c,
        k,
        #[trigger] net.layers[k],
        t,
        s + t,
    ) && crate::model::layer_has_room(c, k, net.layers[k], u, s + t + u) by {
        assert(crate::model::layer_has_room(c, k, net.layers[k], t + u, s + (t + u)));
        lemma_less_room(c, k, net.layers[k], t, s + t, t + u, s + (t + u));
        lemma_less_room(c, k, net.layers[k], u, s + t + u, t + u, s + (t + u));
    }
    lemma_fewer(t, t + u, h as int);
    lemma_fewer(u, t + u, h as int);
    lemma_fewer(t, t + u, net.per_layer_width() as int);
    lemma_fewer(u, t + u, net.per_layer_width() as int);
    assert forall|k: int| 0 <= k < i.len() implies #[trigger] i[k] < net.top.embed.dims[0] && i[k]
        < net.top.embed_per_layer.dims[0] by {
        assert((i + j)[k] == i[k]);
    }
    assert forall|k: int| 0 <= k < j.len() implies #[trigger] j[k] < net.top.embed.dims[0] && j[k]
        < net.top.embed_per_layer.dims[0] by {
        assert((i + j)[i.len() + k] == j[k]);
    }
}

proof fn lemma_fewer(t: nat, n: nat, d: int)
    requires
        t <= n,
        0 <= d,
    ensures
        t * d <= n * d,
{
    assert(t * d <= n * d) by (nonlinear_arith)
        requires
            t <= n,
            0 <= d,
    ;
}

proof fn lemma_less_room(c: Gemma4Config, i: int, l: LayerWeights<Content>, t: nat, s: nat, u: nat, v: nat)
    requires
        crate::model::layer_has_room(c, i, l, u, v),
        t <= u,
        s <= v,
    ensures
        crate::model::layer_has_room(c, i, l, t, s),
{
    let (hq, hkv, d) = (c.num_attention_heads, c.num_key_value_heads, c.spec_head_dim(i));
    assert(hq * d >= 0 && hkv * d >= 0) by (nonlinear_arith)
        requires
            hq >= 0,
            hkv >= 0,
            d >= 0,
    ;
    lemma_fewer(t, u, hq * d);
    lemma_fewer(s, v, hkv * d);
    lemma_fewer(t, u, l.gate_proj.dims[0] as int);
    if let Some(g) = l.ple_gate {
        lemma_fewer(t, u, g.dims[0] as int);
    }
}

/// The last row of rows put together.
proof fn lemma_last_row(x: Content, y: Content, t: nat, u: nat, n: usize)
    requires
        is_mat(x, t, n),
        is_mat(y, u, n),
        u > 0,
        t + u <= usize::MAX,
        (t + u) * n <= usize::MAX,
    ensures
        x.followed_by(y).rows(t + u - 1, 1) == y.rows(u - 1, 1),
{
    lemma_mats_join(x, y, t, u, n);
    assert((t + u - 1) * n == t * n + (u - 1) * n && (t + u) * n == t * n + u * n && (u - 1) * n >= 0 && (u - 1) * n
        + n == u * n) by (nonlinear_arith)
        requires
            u > 0,
            n >= 0,
    ;
    assert(x.followed_by(y).rows(t + u - 1, 1) =~= y.rows(u - 1, 1));
}

/// What is remembered after the first `n` tokens are run one at a time.
pub open spec fn walked(net: Net, a: Arithmetic, m: Memory, ids: Seq<u32>, positions: Seq<u32>, n: nat) -> Memory
    decreases n,
{
    if n == 0 {
        m
    } else {
        let k = (n - 1) as nat;
        net.remembered(
            a,
            walked(net, a, m, ids, positions, k),
            seq![ids[k as int]],
            seq![positions[k as int]],
        )
    }
}

/// Tokens run one at a time, each later than those before, give in the end the
/// logits that they give when run at once, and leave the same keys and values
/// behind.
pub proof fn one_by_one_is_at_once(net: Net, a: Arithmetic, m: Memory, ids: Seq<u32>, positions: Seq<u32>)
    requires
        row_wise(a),
        net.fits(),
        net.owns(m),
        net.takes(m, ids, positions),
        ids.len() > 0,
        forall|x: int, y: int| 0 <= x < y < positions.len() ==> #[trigger] positions[x] < #[trigger] positions[y],
    ensures
        walked(net, a, m, ids, positions, ids.len()) == net.remembered(a, m, ids, positions),
        net.logits(
            a,
            walked(net, a, m, ids, positions, (ids.len() - 1) as nat),
            seq![ids.last()],
            seq![positions.last()],
        ) == net.logits(a, m, ids, positions),
    decreases ids.len(),
{
    let n = ids.len() as int;
    assert(positions.len() == n);
    let (i, p) = (ids.drop_last(), positions.drop_last());
    let (j, q) = (seq![ids.last()], seq![positions.last()]);
    assert(i + j =~= ids);
    assert(p + q =~= positions);
    if n == 1 {
        assert(ids =~= j);
        assert(positions =~= q);
        assert(walked(net, a, m, ids, positions, 0) == m);
    } else {
        assert(earlier(p, q));
        two_goes_are_one(net, a, m, i, j, p, q);
        one_by_one_is_at_once(net, a, m, i, p);
        lemma_walked_prefix(net, a, m, i, p, ids.last(), positions.last(), (n - 1) as nat);
        assert(i.push(ids.last()) =~= ids);
        assert(p.push(positions.last()) =~= positions);
    }
}

/// The first steps do not depend on the last token.
proof fn lemma_walked_prefix(
    net: Net,
    a: Arithmetic,
    m: Memory,
    ids: Seq<u32>,
    positions: Seq<u32>,
    id: u32,
    position: u32,
    n: nat,
)
    requires
        n <= ids.len(),
        n <= positions.len(),
    ensures
        walked(net, a, m, ids.push(id), positions.push(position), n) == walked(net, a, m, ids, positions, n),
    decreases n,
{
    if n > 0 {
        lemma_walked_prefix(net, a, m, ids, positions, id, position, (n - 1) as nat);
    }
}

} // verus!
