//! The order-theoretic laws of the library: the tokenizer loses no
//! characters, and the humane order is a total order wherever it yields a
//! verdict.

use vstd::prelude::*;
use crate::segment::{grapheme_seq, well_segmented};
use crate::tokenizer::{
    classifier_fn, lemma_run_len_bounds, run_len, spec_tokens, NumericClassifier, SortingType,
};
use crate::order::{
    all_numeric_fit, numeric_fits, spec_humane_cmp, spec_humane_tokens, spec_lex_cmp,
    spec_seq_cmp, spec_token_cmp,
};

verus! {

use core::cmp::Ordering;

/// The texts of a token stream, concatenated in order.
pub open spec fn token_texts(ts: Seq<(Seq<char>, SortingType)>) -> Seq<char>
    decreases ts.len(),
{
    if ts.len() == 0 {
        Seq::empty()
    } else {
        ts[0].0 + token_texts(ts.drop_first())
    }
}

/// The verdict with its operands swapped.
pub open spec fn flip(o: Option<Ordering>) -> Option<Ordering> {
    match o {
        None => None,
        Some(Ordering::Less) => Some(Ordering::Greater),
        Some(Ordering::Equal) => Some(Ordering::Equal),
        Some(Ordering::Greater) => Some(Ordering::Less),
    }
}

/// Tokenizer coverage over a grapheme sequence: the texts of its tokens
/// concatenate back to exactly its characters, under any classification.
pub proof fn lemma_tokens_cover(gs: Seq<Seq<char>>, cl: spec_fn(Seq<char>) -> SortingType)
    ensures
        token_texts(spec_tokens(gs, cl)) == gs.flatten(),
    decreases gs.len(),
{
    if gs.len() == 0 {
        assert(token_texts(spec_tokens(gs, cl)) =~= gs.flatten());
    } else {
        lemma_run_len_bounds(gs, cl);
        let n = run_len(gs, cl) as int;
        let rest = gs.skip(n);
        lemma_tokens_cover(rest, cl);
        let t0 = (gs.take(n).flatten(), cl(gs[0]));
        assert(spec_tokens(gs, cl) == seq![t0] + spec_tokens(rest, cl));
        assert((seq![t0] + spec_tokens(rest, cl)).drop_first() =~= spec_tokens(rest, cl));
        assert((seq![t0] + spec_tokens(rest, cl))[0] == t0);
        vstd::seq_lib::lemma_flatten_concat(gs.take(n), rest);
        assert(gs.take(n) + rest =~= gs);
        assert(token_texts(spec_tokens(gs, cl)) =~= gs.flatten());
    }
}

/// Tokenizer coverage over a string: concatenating the texts of all its
/// tokens reconstructs the string exactly.
pub proof fn lemma_tokenizer_coverage(s: Seq<char>, cl: spec_fn(Seq<char>) -> SortingType)
    requires
        well_segmented(s),
    ensures
        token_texts(spec_tokens(grapheme_seq(s), cl)) == s,
{
    lemma_tokens_cover(grapheme_seq(s), cl);
}

proof fn lemma_lex_refl(a: Seq<char>)
    ensures
        spec_lex_cmp(a, a) == Ordering::Equal,
    decreases a.len(),
{
    if a.len() > 0 {
        lemma_lex_refl(a.drop_first());
    }
}

proof fn lemma_lex_flip(a: Seq<char>, b: Seq<char>)
    ensures
        spec_lex_cmp(b, a) == (match spec_lex_cmp(a, b) {
            Ordering::Less => Ordering::Greater,
            Ordering::Equal => Ordering::Equal,
            Ordering::Greater => Ordering::Less,
        }),
    decreases a.len() + b.len(),
{
    if a.len() > 0 && b.len() > 0 && a[0] == b[0] {
        lemma_lex_flip(a.drop_first(), b.drop_first());
    }
}

proof fn lemma_lex_equal_is_eq(a: Seq<char>, b: Seq<char>)
    requires
        spec_lex_cmp(a, b) == Ordering::Equal,
    ensures
        a == b,
    decreases a.len() + b.len(),
{
    if a.len() > 0 && b.len() > 0 && a[0] == b[0] {
        lemma_lex_equal_is_eq(a.drop_first(), b.drop_first());
        assert forall|i: int| 0 <= i < a.len() implies a[i] == b[i] by {
            if i > 0 {
                assert(a[i] == a.drop_first()[i - 1]);
                assert(b[i] == b.drop_first()[i - 1]);
            }
        }
        assert(a =~= b);
    } else {
        assert(a =~= b);
    }
}

proof fn lemma_lex_trans(a: Seq<char>, b: Seq<char>, c: Seq<char>)
    requires
        spec_lex_cmp(a, b) == Ordering::Less,
        spec_lex_cmp(b, c) == Ordering::Less,
    ensures
        spec_lex_cmp(a, c) == Ordering::Less,
    decreases a.len() + b.len() + c.len(),
{
    if a.len() > 0 && b.len() > 0 && c.len() > 0 && a[0] == b[0] && b[0] == c[0] {
        lemma_lex_trans(a.drop_first(), b.drop_first(), c.drop_first());
    }
}

proof fn lemma_token_cmp_self(t: (Seq<char>, SortingType))
    ensures
        spec_token_cmp(t, t) is Some ==> spec_token_cmp(t, t) == Some(Ordering::Equal),
{
    lemma_lex_refl(t.0);
}

proof fn lemma_token_cmp_flip(t: (Seq<char>, SortingType), u: (Seq<char>, SortingType))
    ensures
        spec_token_cmp(u, t) == flip(spec_token_cmp(t, u)),
{
    lemma_lex_flip(t.0, u.0);
}

proof fn lemma_token_eq_subst_left(
    t: (Seq<char>, SortingType),
    u: (Seq<char>, SortingType),
    v: (Seq<char>, SortingType),
)
    requires
        spec_token_cmp(t, u) == Some(Ordering::Equal),
    ensures
        spec_token_cmp(t, v) == spec_token_cmp(u, v),
{
    if t.1 == SortingType::NonNumeric && u.1 == SortingType::NonNumeric {
        lemma_lex_equal_is_eq(t.0, u.0);
    }
}

proof fn lemma_token_eq_subst_right(
    t: (Seq<char>, SortingType),
    u: (Seq<char>, SortingType),
    v: (Seq<char>, SortingType),
)
    requires
        spec_token_cmp(u, v) == Some(Ordering::Equal),
    ensures
        spec_token_cmp(t, v) == spec_token_cmp(t, u),
{
    if u.1 == SortingType::NonNumeric && v.1 == SortingType::NonNumeric {
        lemma_lex_equal_is_eq(u.0, v.0);
    }
}

proof fn lemma_token_less_trans(
    t: (Seq<char>, SortingType),
    u: (Seq<char>, SortingType),
    v: (Seq<char>, SortingType),
)
    requires
        spec_token_cmp(t, u) == Some(Ordering::Less),
        spec_token_cmp(u, v) == Some(Ordering::Less),
    ensures
        spec_token_cmp(t, v) == Some(Ordering::Less),
{
    if t.1 == SortingType::NonNumeric && u.1 == SortingType::NonNumeric && v.1
        == SortingType::NonNumeric {
        lemma_lex_trans(t.0, u.0, v.0);
    }
}

proof fn lemma_seq_cmp_refl(ts: Seq<(Seq<char>, SortingType)>)
    ensures
        spec_seq_cmp(ts, ts) is Some ==> spec_seq_cmp(ts, ts) == Some(Ordering::Equal),
    decreases ts.len(),
{
    if ts.len() > 0 {
        lemma_token_cmp_self(ts[0]);
        lemma_seq_cmp_refl(ts.drop_first());
    }
}

proof fn lemma_seq_cmp_flip(ts: Seq<(Seq<char>, SortingType)>, us: Seq<(Seq<char>, SortingType)>)
    ensures
        spec_seq_cmp(us, ts) == flip(spec_seq_cmp(ts, us)),
    decreases ts.len() + us.len(),
{
    if ts.len() > 0 && us.len() > 0 {
        lemma_token_cmp_flip(ts[0], us[0]);
        lemma_seq_cmp_flip(ts.drop_first(), us.drop_first());
    }
}

proof fn lemma_seq_cmp_trans(
    ts: Seq<(Seq<char>, SortingType)>,
    us: Seq<(Seq<char>, SortingType)>,
    vs: Seq<(Seq<char>, SortingType)>,
)
    requires
        spec_seq_cmp(ts, us) == Some(Ordering::Less),
        spec_seq_cmp(us, vs) == Some(Ordering::Less),
    ensures
        spec_seq_cmp(ts, vs) == Some(Ordering::Less),
    decreases ts.len() + us.len() + vs.len(),
{
    if ts.len() == 0 {
        assert(us.len() > 0);
        assert(vs.len() > 0);
    } else {
        assert(us.len() > 0);
        assert(vs.len() > 0);
        let ct = spec_token_cmp(ts[0], us[0]);
        let cu = spec_token_cmp(us[0], vs[0]);
        if ct == Some(Ordering::Equal) && cu == Some(Ordering::Equal) {
            lemma_token_eq_subst_left(ts[0], us[0], vs[0]);
            lemma_seq_cmp_trans(ts.drop_first(), us.drop_first(), vs.drop_first());
        } else if ct == Some(Ordering::Equal) {
            lemma_token_eq_subst_left(ts[0], us[0], vs[0]);
        } else if cu == Some(Ordering::Equal) {
            lemma_token_eq_subst_right(ts[0], us[0], vs[0]);
        } else {
            lemma_token_less_trans(ts[0], us[0], vs[0]);
        }
    }
}

proof fn lemma_seq_cmp_equal_subst(
    ts: Seq<(Seq<char>, SortingType)>,
    us: Seq<(Seq<char>, SortingType)>,
    vs: Seq<(Seq<char>, SortingType)>,
)
    requires
        spec_seq_cmp(ts, us) == Some(Ordering::Equal),
    ensures
        spec_seq_cmp(ts, vs) == spec_seq_cmp(us, vs),
    decreases ts.len() + us.len() + vs.len(),
{
    if ts.len() > 0 {
        assert(us.len() > 0);
        lemma_token_eq_subst_left(ts[0], us[0], vs[0]);
        if vs.len() > 0 && spec_token_cmp(ts[0], vs[0]) == Some(Ordering::Equal) {
            lemma_seq_cmp_equal_subst(ts.drop_first(), us.drop_first(), vs.drop_first());
        }
    } else {
        assert(us.len() == 0);
    }
}

/// Reflexivity: whenever a string can be compared with itself at all, the
/// verdict is Equal.
pub proof fn lemma_humane_reflexive(a: Seq<char>)
    ensures
        spec_humane_cmp(a, a) is Some ==> spec_humane_cmp(a, a) == Some(Ordering::Equal),
{
    lemma_seq_cmp_refl(spec_humane_tokens(a));
}

/// Antisymmetry: swapping the operands flips the verdict; in particular,
/// if a < b then not b < a.
pub proof fn lemma_humane_antisymmetric(a: Seq<char>, b: Seq<char>)
    ensures
        spec_humane_cmp(b, a) == flip(spec_humane_cmp(a, b)),
{
    lemma_seq_cmp_flip(spec_humane_tokens(a), spec_humane_tokens(b));
}

/// Transitivity: if a < b and b < c then a < c, and the third comparison
/// cannot fail.
pub proof fn lemma_humane_transitive(a: Seq<char>, b: Seq<char>, c: Seq<char>)
    requires
        spec_humane_cmp(a, b) == Some(Ordering::Less),
        spec_humane_cmp(b, c) == Some(Ordering::Less),
    ensures
        spec_humane_cmp(a, c) == Some(Ordering::Less),
{
    lemma_seq_cmp_trans(spec_humane_tokens(a), spec_humane_tokens(b), spec_humane_tokens(c));
}

/// Strings that compare Equal are interchangeable: each compares to any
/// third string exactly as the other does. With reflexivity,
/// antisymmetry and transitivity this makes the order a total order on
/// the classes of strings it deems equal.
pub proof fn lemma_humane_equal_subst(a: Seq<char>, b: Seq<char>, c: Seq<char>)
    requires
        spec_humane_cmp(a, b) == Some(Ordering::Equal),
    ensures
        spec_humane_cmp(a, c) == spec_humane_cmp(b, c),
        spec_humane_cmp(c, a) == spec_humane_cmp(c, b),
{
    lemma_seq_cmp_equal_subst(spec_humane_tokens(a), spec_humane_tokens(b), spec_humane_tokens(c));
    lemma_seq_cmp_flip(spec_humane_tokens(a), spec_humane_tokens(c));
    lemma_seq_cmp_flip(spec_humane_tokens(b), spec_humane_tokens(c));
}

/// The empty string is least: it compares Equal to itself and Less than
/// every nonempty string.
pub proof fn lemma_empty_string_least(a: Seq<char>, b: Seq<char>)
    requires
        a.len() == 0,
        well_segmented(a),
        well_segmented(b),
    ensures
        spec_humane_cmp(a, b) == (if b.len() == 0 {
            Some(Ordering::Equal)
        } else {
            Some(Ordering::Less)
        }),
{
    let gsa = grapheme_seq(a);
    if gsa.len() > 0 {
        assert(gsa.flatten() == gsa.first() + gsa.drop_first().flatten());
        assert(gsa.flatten().len() > 0);
    }
    assert(gsa =~= Seq::<Seq<char>>::empty());
    let gsb = grapheme_seq(b);
    if b.len() == 0 {
        if gsb.len() > 0 {
            assert(gsb.flatten() == gsb.first() + gsb.drop_first().flatten());
            assert(gsb.flatten().len() > 0);
        }
        assert(gsb =~= Seq::<Seq<char>>::empty());
    } else {
        assert(gsb.len() > 0) by {
            if gsb.len() == 0 {
                assert(gsb.flatten() =~= Seq::<char>::empty());
            }
        }
        lemma_run_len_bounds(gsb, classifier_fn(NumericClassifier));
    }
}

proof fn lemma_seq_cmp_defined(ts: Seq<(Seq<char>, SortingType)>, us: Seq<(Seq<char>, SortingType)>)
    requires
        all_numeric_fit(ts),
        all_numeric_fit(us),
    ensures
        spec_seq_cmp(ts, us) is Some,
    decreases ts.len() + us.len(),
{
    if ts.len() > 0 && us.len() > 0 {
        assert(ts[0].1 == SortingType::Numeric ==> numeric_fits(ts[0].0));
        assert(us[0].1 == SortingType::Numeric ==> numeric_fits(us[0].0));
        if spec_token_cmp(ts[0], us[0]) == Some(Ordering::Equal) {
            assert forall|i: int|
                0 <= i < ts.drop_first().len() && (#[trigger] ts.drop_first()[i]).1
                    == SortingType::Numeric implies numeric_fits(ts.drop_first()[i].0) by {
                assert(ts.drop_first()[i] == ts[i + 1]);
            }
            assert forall|i: int|
                0 <= i < us.drop_first().len() && (#[trigger] us.drop_first()[i]).1
                    == SortingType::Numeric implies numeric_fits(us.drop_first()[i].0) by {
                assert(us.drop_first()[i] == us[i + 1]);
            }
            lemma_seq_cmp_defined(ts.drop_first(), us.drop_first());
        }
    }
}

/// A verdict always exists when no numeric token of either string
/// overflows the integer width: on such strings the order is total.
pub proof fn lemma_humane_cmp_defined(a: Seq<char>, b: Seq<char>)
    requires
        all_numeric_fit(spec_humane_tokens(a)),
        all_numeric_fit(spec_humane_tokens(b)),
    ensures
        spec_humane_cmp(a, b) is Some,
{
    lemma_seq_cmp_defined(spec_humane_tokens(a), spec_humane_tokens(b));
}

/// A pair of numeric head tokens one of whose values does not fit the
/// integer width cannot be ordered: the walk fails rather than guessing.
pub proof fn lemma_overflow_fails(
    ts: Seq<(Seq<char>, SortingType)>,
    us: Seq<(Seq<char>, SortingType)>,
)
    requires
        ts.len() > 0,
        us.len() > 0,
        ts[0].1 == SortingType::Numeric,
        us[0].1 == SortingType::Numeric,
        !numeric_fits(ts[0].0) || !numeric_fits(us[0].0),
    ensures
        spec_seq_cmp(ts, us) is None,
{
}

} // verus!
