//! The names a model asks for: how many, all different, all of the text model.
use vstd::prelude::*;

verus! {

/// Where a layer's weights stand among the names.
pub(crate) proof fn lemma_layer_names(n: nat)
    ensures
        super::layer_names(n).len() == super::layer_parts().len() * n,
        forall|i: int, p: int|
            0 <= i < n && 0 <= p < super::layer_parts().len() ==> #[trigger] super::layer_names(n)[super::layer_parts().len() * i + p] == super::layer_weight(
                i as nat,
                super::layer_parts()[p],
            ),
    decreases n,
{
    let m = super::layer_parts().len() as int;
    if n > 0 {
        lemma_layer_names((n - 1) as nat);
        let before = super::layer_names((n - 1) as nat);
        assert(m * (n - 1) + m == m * n) by (nonlinear_arith);
        assert forall|i: int, p: int| 0 <= i < n && 0 <= p < m implies #[trigger] super::layer_names(n)[m * i
            + p] == super::layer_weight(i as nat, super::layer_parts()[p]) by {
            if i < n - 1 {
                assert(m * i + p < m * (n - 1) && m * i >= 0) by (nonlinear_arith)
                    requires
                        0 <= i < n - 1,
                        0 <= p < m,
                ;
                assert(before[m * i + p] == super::layer_weight(i as nat, super::layer_parts()[p]));
            }
        }
    }
}

// --- different names -----------------------------------------------------------------------------

/// Which of a layer's weights a name is, by its length and a few characters.
spec fn place(s: Seq<char>) -> int {
    if s.len() == 22 {
        0
    } else if s.len() == 23 && s[10] == 'q' && s[12] == 'p' {
        1
    } else if s.len() == 23 && s[10] == 'q' && s[12] == 'n' {
        2
    } else if s.len() == 23 && s[10] == 'k' && s[12] == 'p' {
        3
    } else if s.len() == 23 && s[10] == 'k' && s[12] == 'n' {
        4
    } else if s.len() == 23 && s[10] == 'v' {
        5
    } else if s.len() == 23 && s[10] == 'o' {
        6
    } else if s.len() == 31 {
        7
    } else if s.len() == 32 && s[1] == 'r' {
        8
    } else if s.len() == 20 && s[4] == 'g' {
        9
    } else if s.len() == 18 {
        10
    } else if s.len() == 20 && s[4] == 'd' {
        11
    } else if s.len() == 33 {
        12
    } else if s.len() == 27 && s[10] == 'i' {
        13
    } else if s.len() == 27 && s[10] == 'p' {
        14
    } else if s.len() == 32 && s[1] == 'o' {
        15
    } else if s.len() == 12 {
        16
    } else {
        17
    }
}

proof fn lemma_parts_differ(p: int, q: int)
    requires
        0 <= p < super::layer_parts().len(),
        0 <= q < super::layer_parts().len(),
        super::layer_parts()[p] == super::layer_parts()[q],
    ensures
        p == q,
{
    let parts = super::layer_parts();
    reveal_strlit("input_layernorm.weight");
    reveal_strlit("self_attn.q_proj.weight");
    reveal_strlit("self_attn.q_norm.weight");
    reveal_strlit("self_attn.k_proj.weight");
    reveal_strlit("self_attn.k_norm.weight");
    reveal_strlit("self_attn.v_proj.weight");
    reveal_strlit("self_attn.o_proj.weight");
    reveal_strlit("post_attention_layernorm.weight");
    reveal_strlit("pre_feedforward_layernorm.weight");
    reveal_strlit("mlp.gate_proj.weight");
    reveal_strlit("mlp.up_proj.weight");
    reveal_strlit("mlp.down_proj.weight");
    reveal_strlit("post_feedforward_layernorm.weight");
    reveal_strlit("per_layer_input_gate.weight");
    reveal_strlit("per_layer_projection.weight");
    reveal_strlit("post_per_layer_input_norm.weight");
    reveal_strlit("layer_scalar");
    assert(place(parts[0]) == 0);
    assert(place(parts[1]) == 1);
    assert(place(parts[2]) == 2);
    assert(place(parts[3]) == 3);
    assert(place(parts[4]) == 4);
    assert(place(parts[5]) == 5);
    assert(place(parts[6]) == 6);
    assert(place(parts[7]) == 7);
    assert(place(parts[8]) == 8);
    assert(place(parts[9]) == 9);
    assert(place(parts[10]) == 10);
    assert(place(parts[11]) == 11);
    assert(place(parts[12]) == 12);
    assert(place(parts[13]) == 13);
    assert(place(parts[14]) == 14);
    assert(place(parts[15]) == 15);
    assert(place(parts[16]) == 16);
    assert forall|k: int| 0 <= k < 17 implies place(#[trigger] parts[k]) == k by {
    }
    assert(place(parts[p]) == p && place(parts[q]) == q);
}

/// Digits are no dots, and a number is known by its digits.
proof fn lemma_digits(n: nat)
    ensures
        crate::text::decimal_text(n).len() > 0,
        forall|k: int| 0 <= k < crate::text::decimal_text(n).len() ==> #[trigger] crate::text::decimal_text(n)[k] != '.',
    decreases n,
{
    if n >= 10 {
        lemma_digits(n / 10);
    }
}

proof fn lemma_decimal_is_own(a: nat, b: nat)
    requires
        crate::text::decimal_text(a) == crate::text::decimal_text(b),
    ensures
        a == b,
    decreases a,
{
    let (x, y) = (crate::text::decimal_text(a), crate::text::decimal_text(b));
    assert(x.last() == y.last());
    if a >= 10 {
        lemma_digits(a / 10);
    }
    if b >= 10 {
        lemma_digits(b / 10);
    }
    assert(x.len() == y.len());
    if a >= 10 {
        assert(x.drop_last() =~= crate::text::decimal_text(a / 10));
        assert(y.drop_last() =~= crate::text::decimal_text(b / 10));
        lemma_decimal_is_own(a / 10, b / 10);
    }
}

/// A layer's weight is known by its name.
pub proof fn layer_weight_is_own(i: nat, p: int, j: nat, q: int)
    requires
        0 <= p < super::layer_parts().len(),
        0 <= q < super::layer_parts().len(),
        super::layer_weight(i, super::layer_parts()[p]) == super::layer_weight(j, super::layer_parts()[q]),
    ensures
        i == j,
        p == q,
{
    reveal_strlit(".");
    let head = "language_model.layers."@;
    let (x, y) = (crate::text::decimal_text(i), crate::text::decimal_text(j));
    let (a, b) = (super::layer_weight(i, super::layer_parts()[p]), super::layer_weight(j, super::layer_parts()[q]));
    let (m, n) = (head.len() + x.len(), head.len() + y.len());
    lemma_digits(i);
    lemma_digits(j);
    assert(a[m as int] == '.');
    assert(b[n as int] == '.');
    if x.len() < y.len() {
        assert(b[m as int] == y[x.len() as int]);
    }
    if y.len() < x.len() {
        assert(a[n as int] == x[y.len() as int]);
    }
    assert(x =~= y) by {
        assert forall|k: int| 0 <= k < x.len() implies x[k] == y[k] by {
            assert(a[head.len() + k] == x[k]);
            assert(b[head.len() + k] == y[k]);
        }
    }
    lemma_decimal_is_own(i, j);
    assert(a.skip((m + 1) as int) =~= super::layer_parts()[p]);
    assert(b.skip((m + 1) as int) =~= super::layer_parts()[q]);
    lemma_parts_differ(p, q);
}

/// What a layer's name looks like.
proof fn lemma_layer_name(i: nat, p: int)
    requires
        0 <= p < super::layer_parts().len(),
    ensures
        super::layer_weight(i, super::layer_parts()[p]).len() > 22,
        super::layer_weight(i, super::layer_parts()[p])[0] == 'l',
        super::layer_weight(i, super::layer_parts()[p])[1] == 'a',
        super::layer_weight(i, super::layer_parts()[p])[15] == 'l',
        crate::text::has_prefix(super::layer_weight(i, super::layer_parts()[p]), "language_model."@),
{
    reveal_strlit("language_model.layers.");
    reveal_strlit("language_model.");
    reveal_strlit(".");
    lemma_digits(i);
    let s = super::layer_weight(i, super::layer_parts()[p]);
    assert(s.take(22) =~= "language_model.layers."@);
    assert(s[0] == s.take(22)[0] && s[1] == s.take(22)[1] && s[15] == s.take(22)[15]);
    assert(s.subrange(0, 15) =~= "language_model."@) by {
        assert forall|k: int| 0 <= k < 15 implies s.subrange(0, 15)[k] == "language_model."@[k] by {
            assert(s[k] == s.take(22)[k]);
        }
    }
}

/// The layer and the weight that a name among the layers' is.
proof fn lemma_layer_place(n: nat, k: int) -> (r: (nat, int))
    requires
        0 <= k < super::layer_names(n).len(),
    ensures
        r.0 < n,
        0 <= r.1 < super::layer_parts().len(),
        k == super::layer_parts().len() * r.0 + r.1,
        super::layer_names(n)[k] == super::layer_weight(r.0, super::layer_parts()[r.1]),
{
    lemma_layer_names(n);
    let m = super::layer_parts().len() as int;
    vstd::arithmetic::div_mod::lemma_fundamental_div_mod(k, m);
    vstd::arithmetic::div_mod::lemma_mod_bound(k, m);
    let (i, p) = (k / m, k % m);
    assert(0 <= i < n) by (nonlinear_arith)
        requires
            k == m * i + p,
            0 <= p < m,
            0 <= k < m * n,
    ;
    (i as nat, p)
}

proof fn lemma_top_names()
    ensures
        "language_model.embed_tokens.weight"@.len() == 34,
        "language_model.embed_tokens_per_layer.weight"@.len() == 44,
        "language_model.per_layer_model_projection.weight"@.len() == 48,
        "language_model.per_layer_projection_norm.weight"@.len() == 47,
        "language_model.norm.weight"@.len() == 26,
        "lm_head.weight"@.len() == 14,
        "language_model.embed_tokens.weight"@[15] == 'e',
        "language_model.embed_tokens_per_layer.weight"@[15] == 'e',
        "language_model.per_layer_model_projection.weight"@[15] == 'p',
        "language_model.per_layer_projection_norm.weight"@[15] == 'p',
        "language_model.norm.weight"@[15] == 'n',
        crate::text::has_prefix("language_model.embed_tokens.weight"@, "language_model."@),
        crate::text::has_prefix("language_model.embed_tokens_per_layer.weight"@, "language_model."@),
        crate::text::has_prefix("language_model.per_layer_model_projection.weight"@, "language_model."@),
        crate::text::has_prefix("language_model.per_layer_projection_norm.weight"@, "language_model."@),
        crate::text::has_prefix("language_model.norm.weight"@, "language_model."@),
{
    reveal_strlit("language_model.");
    reveal_strlit("language_model.embed_tokens.weight");
    reveal_strlit("language_model.embed_tokens_per_layer.weight");
    reveal_strlit("language_model.per_layer_model_projection.weight");
    reveal_strlit("language_model.per_layer_projection_norm.weight");
    reveal_strlit("language_model.norm.weight");
    reveal_strlit("lm_head.weight");
    let p = "language_model."@;
    assert("language_model.embed_tokens.weight"@.subrange(0, 15) =~= p);
    assert("language_model.embed_tokens_per_layer.weight"@.subrange(0, 15) =~= p);
    assert("language_model.per_layer_model_projection.weight"@.subrange(0, 15) =~= p);
    assert("language_model.per_layer_projection_norm.weight"@.subrange(0, 15) =~= p);
    assert("language_model.norm.weight"@.subrange(0, 15) =~= p);
}

/// There are six names besides seventeen for each layer; the first is the
/// embedding's and the last the output head's.
pub proof fn names_are_counted(layers: nat)
    ensures
        super::all_names(layers).len() == 6 + 17 * layers,
        super::all_names(layers)[0] == "language_model.embed_tokens.weight"@,
        super::all_names(layers).last() == "lm_head.weight"@,
{
    lemma_layer_names(layers);
}

/// No name occurs twice.
pub proof fn names_are_distinct(layers: nat)
    ensures
        super::all_names(layers).no_duplicates(),
{
    let names = super::all_names(layers);
    let own = super::layer_names(layers);
    lemma_top_names();
    lemma_layer_names(layers);
    assert forall|x: int, y: int| 0 <= x < y < names.len() implies names[x] != names[y] by {
        let n = own.len() as int;
        if 4 <= x < 4 + n {
            let (i, p) = lemma_layer_place(layers, x - 4);
            lemma_layer_name(i, p);
            assert(names[x] == own[x - 4]);
            if y < 4 + n {
                let (j, q) = lemma_layer_place(layers, y - 4);
                assert(names[y] == own[y - 4]);
                if names[x] == names[y] {
                    layer_weight_is_own(i, p, j, q);
                }
            }
        } else if 4 <= y < 4 + n {
            let (j, q) = lemma_layer_place(layers, y - 4);
            lemma_layer_name(j, q);
            assert(names[y] == own[y - 4]);
        }
    }
}

/// A name below `language_model.` is stored below `model.language_model.`.
proof fn lemma_stored_as_text(name: Seq<char>)
    requires
        crate::text::has_prefix(name, "language_model."@),
        name.len() >= 22,
    ensures
        super::is_text_name(super::disk_names(name).weight),
{
    reveal_strlit("language_model.");
    reveal_strlit("model.language_model.");
    reveal_strlit("model.");
    reveal_strlit(".weight");
    reveal_strlit("lm_head");
    let base = super::base_name(name);
    let stored = "model."@ + base;
    let w = super::disk_names(name).weight;
    assert(base.len() >= 15);
    assert forall|k: int| 0 <= k < 15 implies base[k] == "language_model."@[k] by {
        assert(name.subrange(0, 15)[k] == name[k]);
    }
    assert(base[1] == 'a');
    assert("lm_head"@[1] == 'm');
    assert(w.take(stored.len() as int) =~= stored);
    assert(w.subrange(0, 21) =~= "model.language_model."@) by {
        assert forall|k: int| 0 <= k < 21 implies w.subrange(0, 21)[k] == "model.language_model."@[k] by {
            assert(w[k] == w.take(stored.len() as int)[k]);
            if k >= 6 {
                assert(stored[k] == base[k - 6]);
            }
        }
    }
}

/// Every name is stored as a tensor of the text model.
pub proof fn names_are_of_the_text_model(layers: nat, k: int)
    requires
        0 <= k < super::all_names(layers).len(),
    ensures
        super::is_text_name(super::disk_names(super::all_names(layers)[k]).weight),
{
    let names = super::all_names(layers);
    let own = super::layer_names(layers);
    let n = own.len() as int;
    lemma_top_names();
    if k == 5 + n {
        reveal_strlit("lm_head.weight");
        reveal_strlit("lm_head");
        reveal_strlit(".weight");
        let name = "lm_head.weight"@;
        assert(name.subrange(7, 14) =~= ".weight"@);
        assert(super::base_name(name) =~= "lm_head"@);
        assert(name.subrange(0, 7) =~= "lm_head"@);
    } else {
        if 4 <= k < 4 + n {
            let (i, p) = lemma_layer_place(layers, k - 4);
            lemma_layer_name(i, p);
            assert(names[k] == own[k - 4]);
        }
        lemma_stored_as_text(names[k]);
    }
}

} // verus!
