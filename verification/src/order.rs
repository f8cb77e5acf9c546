//! The humane order: comparing two strings by walking their token streams
//! in lock-step.

use vstd::prelude::*;
use crate::segment::grapheme_seq;
use crate::tokenizer::{
    classifier_fn, is_ascii_digit, is_numeric_text, lemma_run_len_agrees, lemma_run_len_bounds,
    run_len, spec_tokens, NumericClassifier, SortingType, TokenIterator,
};

verus! {

use core::cmp::Ordering;
use vstd::pervasive::unreached;

/// Value of a decimal digit character.
pub open spec fn digit_val(c: char) -> int {
    c as u32 - 48
}

/// The unsigned-integer value a digit text denotes in decimal.
pub open spec fn numeric_value(s: Seq<char>) -> int
    decreases s.len(),
{
    if s.len() == 0 {
        0
    } else {
        numeric_value(s.drop_last()) * 10 + digit_val(s.last())
    }
}

/// Whether a numeric text's value fits the comparator's integer width.
pub open spec fn numeric_fits(s: Seq<char>) -> bool {
    numeric_value(s) <= u64::MAX
}

/// Lexicographic order on character sequences, by code point; a proper
/// prefix is less.
pub open spec fn spec_lex_cmp(a: Seq<char>, b: Seq<char>) -> Ordering
    decreases a.len() + b.len(),
{
    if a.len() == 0 && b.len() == 0 {
        Ordering::Equal
    } else if a.len() == 0 {
        Ordering::Less
    } else if b.len() == 0 {
        Ordering::Greater
    } else if a[0] != b[0] {
        if a[0] < b[0] {
            Ordering::Less
        } else {
            Ordering::Greater
        }
    } else {
        spec_lex_cmp(a.drop_first(), b.drop_first())
    }
}

/// Verdict of one token pair: a numeric token is less than a non-numeric
/// one; two numeric tokens compare by value; two non-numeric tokens
/// compare by text. `None` when a numeric value does not fit the integer
/// width: such a pair cannot be ordered.
pub open spec fn spec_token_cmp(
    t: (Seq<char>, SortingType),
    u: (Seq<char>, SortingType),
) -> Option<Ordering> {
    match (t.1, u.1) {
        (SortingType::Numeric, SortingType::NonNumeric) => Some(Ordering::Less),
        (SortingType::NonNumeric, SortingType::Numeric) => Some(Ordering::Greater),
        (SortingType::Numeric, SortingType::Numeric) => if !numeric_fits(t.0) || !numeric_fits(
            u.0,
        ) {
            None
        } else if numeric_value(t.0) < numeric_value(u.0) {
            Some(Ordering::Less)
        } else if numeric_value(t.0) > numeric_value(u.0) {
            Some(Ordering::Greater)
        } else {
            Some(Ordering::Equal)
        },
        (SortingType::NonNumeric, SortingType::NonNumeric) => Some(spec_lex_cmp(t.0, u.0)),
    }
}

/// Lock-step walk over two token streams: the first pair with a non-equal
/// verdict decides; a stream that runs out first is less; `None` as soon
/// as a pair cannot be ordered.
pub open spec fn spec_seq_cmp(
    ts: Seq<(Seq<char>, SortingType)>,
    us: Seq<(Seq<char>, SortingType)>,
) -> Option<Ordering>
    decreases ts.len() + us.len(),
{
    if ts.len() == 0 && us.len() == 0 {
        Some(Ordering::Equal)
    } else if ts.len() == 0 {
        Some(Ordering::Less)
    } else if us.len() == 0 {
        Some(Ordering::Greater)
    } else {
        match spec_token_cmp(ts[0], us[0]) {
            None => None,
            Some(Ordering::Equal) => spec_seq_cmp(ts.drop_first(), us.drop_first()),
            Some(o) => Some(o),
        }
    }
}

/// The token stream of a string under the built-in classifier.
pub open spec fn spec_humane_tokens(s: Seq<char>) -> Seq<(Seq<char>, SortingType)> {
    spec_tokens(grapheme_seq(s), classifier_fn(NumericClassifier))
}

/// The humane order verdict on two strings; `None` exactly when the walk
/// reaches a pair of numeric tokens one of whose values does not fit.
pub open spec fn spec_humane_cmp(a: Seq<char>, b: Seq<char>) -> Option<Ordering> {
    spec_seq_cmp(spec_humane_tokens(a), spec_humane_tokens(b))
}

/// Every numeric token of the stream has a value that fits the
/// comparator's integer width.
pub open spec fn all_numeric_fit(ts: Seq<(Seq<char>, SortingType)>) -> bool {
    forall|i: int|
        0 <= i < ts.len() && (#[trigger] ts[i]).1 == SortingType::Numeric ==> numeric_fits(
            ts[i].0,
        )
}

proof fn lemma_numeric_value_nonneg(s: Seq<char>)
    requires
        forall|i: int| 0 <= i < s.len() ==> is_ascii_digit(#[trigger] s[i]),
    ensures
        numeric_value(s) >= 0,
    decreases s.len(),
{
    if s.len() > 0 {
        lemma_numeric_value_nonneg(s.drop_last());
    }
}

proof fn lemma_numeric_value_take_step(s: Seq<char>, i: int)
    requires
        0 <= i < s.len(),
    ensures
        numeric_value(s.take(i + 1)) == numeric_value(s.take(i)) * 10 + digit_val(s[i]),
{
    assert(s.take(i + 1).drop_last() =~= s.take(i));
    assert(s.take(i + 1).last() == s[i]);
}

proof fn lemma_numeric_value_take_monotone(s: Seq<char>, i: int)
    requires
        forall|k: int| 0 <= k < s.len() ==> is_ascii_digit(#[trigger] s[k]),
        0 <= i <= s.len(),
    ensures
        numeric_value(s.take(i)) <= numeric_value(s),
    decreases s.len() - i,
{
    if i == s.len() {
        assert(s.take(i) =~= s);
    } else {
        lemma_numeric_value_take_step(s, i);
        assert forall|k: int| 0 <= k < s.take(i).len() implies is_ascii_digit(
            #[trigger] s.take(i)[k],
        ) by {}
        lemma_numeric_value_nonneg(s.take(i));
        lemma_numeric_value_take_monotone(s, i + 1);
    }
}

/// Parses a digit text as a `u64`; `None` exactly when its value does not
/// fit.
fn parse_u64(t: &str) -> (r: Option<u64>)
    requires
        is_numeric_text(t@),
    ensures
        r is Some <==> numeric_fits(t@),
        r matches Some(v) ==> v == numeric_value(t@),
{
    let n = t.unicode_len();
    let mut acc: u64 = 0;
    let mut i: usize = 0;
    while i < n
        invariant
            0 <= i <= n,
            n == t@.len(),
            is_numeric_text(t@),
            acc == numeric_value(t@.take(i as int)),
        decreases n - i,
    {
        let c = t.get_char(i);
        proof {
            assert(is_ascii_digit(t@[i as int]));
        }
        let d: u64 = (c as u32 - 48) as u64;
        proof {
            lemma_numeric_value_take_step(t@, i as int);
        }
        let step = match acc.checked_mul(10) {
            Some(m) => m.checked_add(d),
            None => None,
        };
        match step {
            Some(next) => {
                acc = next;
            },
            None => {
                proof {
                    lemma_numeric_value_take_monotone(t@, i + 1);
                }
                return None;
            },
        }
        i = i + 1;
    }
    proof {
        assert(t@.take(n as int) =~= t@);
    }
    Some(acc)
}

proof fn lemma_lex_skip(a: Seq<char>, b: Seq<char>, i: int)
    requires
        0 <= i <= a.len(),
        i <= b.len(),
        forall|j: int| 0 <= j < i ==> a[j] == b[j],
    ensures
        spec_lex_cmp(a, b) == spec_lex_cmp(a.skip(i), b.skip(i)),
    decreases i,
{
    if i == 0 {
        assert(a.skip(0) =~= a);
        assert(b.skip(0) =~= b);
    } else {
        assert(a[0] == b[0]);
        let a1 = a.drop_first();
        let b1 = b.drop_first();
        assert forall|j: int| 0 <= j < i - 1 implies a1[j] == b1[j] by {
            assert(a1[j] == a[j + 1]);
            assert(b1[j] == b[j + 1]);
        }
        lemma_lex_skip(a1, b1, i - 1);
        assert(a1.skip(i - 1) =~= a.skip(i));
        assert(b1.skip(i - 1) =~= b.skip(i));
    }
}

/// Compares two texts lexicographically by code point.
fn str_cmp(a: &str, b: &str) -> (r: Ordering)
    ensures
        r == spec_lex_cmp(a@, b@),
{
    let la = a.unicode_len();
    let lb = b.unicode_len();
    let mut i: usize = 0;
    while i < la && i < lb
        invariant
            0 <= i <= la,
            0 <= i <= lb,
            la == a@.len(),
            lb == b@.len(),
            forall|j: int| 0 <= j < i ==> a@[j] == b@[j],
        decreases la - i,
    {
        let ca = a.get_char(i);
        let cb = b.get_char(i);
        if ca != cb {
            proof {
                lemma_lex_skip(a@, b@, i as int);
                assert(a@.skip(i as int)[0] == a@[i as int]);
                assert(b@.skip(i as int)[0] == b@[i as int]);
            }
            if ca < cb {
                return Ordering::Less;
            } else {
                return Ordering::Greater;
            }
        }
        i = i + 1;
    }
    proof {
        lemma_lex_skip(a@, b@, i as int);
        if i == la {
            assert(a@.skip(i as int) =~= Seq::<char>::empty());
        }
        if i == lb {
            assert(b@.skip(i as int) =~= Seq::<char>::empty());
        }
    }
    if la == lb {
        Ordering::Equal
    } else if la < lb {
        Ordering::Less
    } else {
        Ordering::Greater
    }
}

proof fn lemma_flatten_all_digits(xs: Seq<Seq<char>>)
    requires
        xs.len() > 0,
        forall|i: int| 0 <= i < xs.len() ==> is_numeric_text(#[trigger] xs[i]),
    ensures
        is_numeric_text(xs.flatten()),
    decreases xs.len(),
{
    if xs.len() == 1 {
        xs.lemma_flatten_one_element();
        assert(xs.flatten() == xs[0]);
    } else {
        let tail = xs.drop_first();
        assert forall|i: int| 0 <= i < tail.len() implies is_numeric_text(#[trigger] tail[i]) by {
            assert(tail[i] == xs[i + 1]);
        }
        lemma_flatten_all_digits(tail);
        assert(xs.flatten() == xs.first() + tail.flatten());
        assert forall|k: int| 0 <= k < xs.flatten().len() implies is_ascii_digit(
            #[trigger] xs.flatten()[k],
        ) by {
            if k < xs.first().len() {
                assert(xs.flatten()[k] == xs.first()[k]);
                assert(is_numeric_text(xs[0]));
            } else {
                assert(xs.flatten()[k] == tail.flatten()[k - xs.first().len()]);
            }
        }
    }
}

/// Under the built-in classifier, a token tagged `Numeric` has a text that
/// is a nonempty run of digits.
pub proof fn lemma_numeric_token_is_digits(gs: Seq<Seq<char>>)
    requires
        gs.len() > 0,
        spec_tokens(gs, classifier_fn(NumericClassifier))[0].1 == SortingType::Numeric,
    ensures
        is_numeric_text(spec_tokens(gs, classifier_fn(NumericClassifier))[0].0),
{
    let cl = classifier_fn(NumericClassifier);
    let n = run_len(gs, cl) as int;
    lemma_run_len_bounds(gs, cl);
    lemma_run_len_agrees(gs, cl);
    let run = gs.take(n);
    assert(spec_tokens(gs, cl)[0] == (run.flatten(), cl(gs[0])));
    assert(is_numeric_text(gs[0]));
    assert forall|i: int| 0 <= i < run.len() implies is_numeric_text(#[trigger] run[i]) by {
        assert(run[i] == gs[i]);
        assert(cl(gs[i]) == cl(gs[0]));
    }
    lemma_flatten_all_digits(run);
}

/// Walks the two token streams and returns the verdict, or `None` when a
/// numeric pair cannot be ordered.
fn order_walk(this: &str, other: &str) -> (r: Option<Ordering>)
    ensures
        r == spec_humane_cmp(this@, other@),
{
    let mut self_tokens = TokenIterator::new(this, NumericClassifier);
    let mut other_tokens = TokenIterator::new(other, NumericClassifier);
    loop
        invariant
            self_tokens.classifier() == NumericClassifier,
            other_tokens.classifier() == NumericClassifier,
            spec_seq_cmp(self_tokens.toks(), other_tokens.toks()) == spec_humane_cmp(
                this@,
                other@,
            ),
        decreases self_tokens.toks().len() + other_tokens.toks().len(),
    {
        let ghost gs_a = self_tokens.remaining_graphemes();
        let ghost gs_b = other_tokens.remaining_graphemes();
        let na = self_tokens.next();
        let nb = other_tokens.next();
        match (na, nb) {
            (None, None) => {
                return Some(Ordering::Equal);
            },
            (None, _) => {
                return Some(Ordering::Less);
            },
            (_, None) => {
                return Some(Ordering::Greater);
            },
            (Some(ours), Some(theirs)) => {
                match (ours.1, theirs.1) {
                    (SortingType::Numeric, SortingType::NonNumeric) => {
                        return Some(Ordering::Less);
                    },
                    (SortingType::NonNumeric, SortingType::Numeric) => {
                        return Some(Ordering::Greater);
                    },
                    (SortingType::Numeric, SortingType::Numeric) => {
                        proof {
                            lemma_numeric_token_is_digits(gs_a);
                            lemma_numeric_token_is_digits(gs_b);
                        }
                        let va = match parse_u64(ours.0.as_str()) {
                            Some(v) => v,
                            None => {
                                return None;
                            },
                        };
                        let vb = match parse_u64(theirs.0.as_str()) {
                            Some(v) => v,
                            None => {
                                return None;
                            },
                        };
                        if va < vb {
                            return Some(Ordering::Less);
                        } else if vb < va {
                            return Some(Ordering::Greater);
                        }
                    },
                    (SortingType::NonNumeric, SortingType::NonNumeric) => {
                        match str_cmp(ours.0.as_str(), theirs.0.as_str()) {
                            Ordering::Equal => {},
                            o => {
                                return Some(o);
                            },
                        }
                    },
                }
            },
        }
    }
}

/// Orders two strings humanely: numeric runs by value, non-numeric runs by
/// text, a run-out stream first. The verdict must exist: every numeric
/// pair the walk reaches fits the integer width (see
/// [`humane_order_checked`] for the total variant).
pub fn humane_order(this: &str, other: &str) -> (r: Ordering)
    requires
        spec_humane_cmp(this@, other@) is Some,
    ensures
        Some(r) == spec_humane_cmp(this@, other@),
{
    match order_walk(this, other) {
        Some(o) => o,
        None => unreached(),
    }
}

/// Orders two strings humanely, reporting `None` instead of a verdict when
/// the comparison reaches a pair of numeric tokens one of whose values
/// does not fit a `u64`.
pub fn humane_order_checked(this: &str, other: &str) -> (r: Option<Ordering>)
    ensures
        r == spec_humane_cmp(this@, other@),
{
    match order_walk(this, other) {
        Some(_) => Some(humane_order(this, other)),
        None => None,
    }
}

/// An owned string ordered by [`humane_order`]. Equality is exact string
/// equality; the order is coarser: distinct numerals of one value, such as
/// `"007"` and `"7"`, compare equal.
#[derive(PartialEq, Eq, Debug)]
pub struct HumaneString {
    pub data: String,
}

impl HumaneString {
    /// Wraps an owned copy of `s`.
    pub fn new(s: &str) -> (h: Self)
        ensures
            h.data@ == s@,
    {
        HumaneString { data: s.to_owned() }
    }

    /// The wrapped string.
    pub fn as_str(&self) -> (r: &str)
        ensures
            r@ == self.data@,
    {
        self.data.as_str()
    }
}

impl PartialOrd for HumaneString {
    /// The humane order verdict; `None` when a numeric pair cannot be
    /// ordered.
    fn partial_cmp(&self, other: &Self) -> (r: Option<Ordering>) {
        humane_order_checked(self.data.as_str(), other.data.as_str())
    }
}

impl vstd::std_specs::cmp::PartialOrdSpecImpl for HumaneString {
    open spec fn obeys_partial_cmp_spec() -> bool {
        true
    }

    open spec fn partial_cmp_spec(&self, other: &Self) -> Option<Ordering> {
        spec_humane_cmp(self.data@, other.data@)
    }
}

} // verus!
