//! Splitting a string into maximal runs of graphemes that share a
//! classification, and the classification itself.

use vstd::prelude::*;
use crate::segment::{grapheme_seq, grapheme_views, graphemes_of, well_segmented};

verus! {

/// The classification a token can carry: its text either reads as an
/// unsigned integer or it does not.
#[derive(PartialEq, Eq, Structural, Clone, Copy, Debug)]
pub enum SortingType {
    Numeric,
    NonNumeric,
}

pub open spec fn is_ascii_digit(c: char) -> bool {
    '0' <= c && c <= '9'
}

/// A text reads as an unsigned integer when it is nonempty and all its
/// characters are decimal digits: no sign, no point, no whitespace.
pub open spec fn is_numeric_text(s: Seq<char>) -> bool {
    s.len() > 0 && forall|i: int| 0 <= i < s.len() ==> is_ascii_digit(#[trigger] s[i])
}

/// The built-in classification of a text.
pub open spec fn classify_text(s: Seq<char>) -> SortingType {
    if is_numeric_text(s) {
        SortingType::Numeric
    } else {
        SortingType::NonNumeric
    }
}

/// Classifies a text: `Numeric` iff it is a nonempty run of decimal digits.
pub fn sorting_type(x: &str) -> (t: SortingType)
    ensures
        t == classify_text(x@),
{
    let n = x.unicode_len();
    if n == 0 {
        return SortingType::NonNumeric;
    }
    let mut i: usize = 0;
    while i < n
        invariant
            0 <= i <= n,
            n == x@.len(),
            forall|j: int| 0 <= j < i ==> is_ascii_digit(#[trigger] x@[j]),
        decreases n - i,
    {
        let c = x.get_char(i);
        if !('0' <= c && c <= '9') {
            return SortingType::NonNumeric;
        }
        i = i + 1;
    }
    SortingType::Numeric
}

/// A classification function the tokenizer can be driven by: a pure
/// function from a text to its tag, stated by `classify_spec` and computed
/// by `classify`.
pub trait Classify: Sized {
    spec fn classify_spec(&self, g: Seq<char>) -> SortingType;

    fn classify(&self, g: &str) -> (t: SortingType)
        ensures
            t == self.classify_spec(g@),
    ;
}

/// The built-in classifier: numeric iff the text is a nonempty digit run.
pub struct NumericClassifier;

impl Classify for NumericClassifier {
    open spec fn classify_spec(&self, g: Seq<char>) -> SortingType {
        classify_text(g)
    }

    fn classify(&self, g: &str) -> (t: SortingType) {
        sorting_type(g)
    }
}

/// Length of the leading run of graphemes whose classifications agree:
/// starting from the first grapheme, the run extends while each next
/// grapheme's classification equals the previous one's.
pub open spec fn run_len(gs: Seq<Seq<char>>, cl: spec_fn(Seq<char>) -> SortingType) -> nat
    decreases gs.len(),
{
    if gs.len() == 0 {
        0
    } else if gs.len() > 1 && cl(gs[1]) == cl(gs[0]) {
        1 + run_len(gs.drop_first(), cl)
    } else {
        1
    }
}

pub proof fn lemma_run_len_bounds(gs: Seq<Seq<char>>, cl: spec_fn(Seq<char>) -> SortingType)
    requires
        gs.len() > 0,
    ensures
        1 <= run_len(gs, cl) <= gs.len(),
    decreases gs.len(),
{
    if gs.len() > 1 && cl(gs[1]) == cl(gs[0]) {
        lemma_run_len_bounds(gs.drop_first(), cl);
    }
}

/// The token stream of a grapheme sequence under a classification: each
/// token is the concatenation of a maximal run of same-classified
/// graphemes, tagged with the run's classification.
pub open spec fn spec_tokens(
    gs: Seq<Seq<char>>,
    cl: spec_fn(Seq<char>) -> SortingType,
) -> Seq<(Seq<char>, SortingType)>
    decreases gs.len(),
    via spec_tokens_decreases
{
    if gs.len() == 0 {
        Seq::empty()
    } else {
        let n = run_len(gs, cl) as int;
        seq![(gs.take(n).flatten(), cl(gs[0]))] + spec_tokens(gs.skip(n), cl)
    }
}

#[via_fn]
proof fn spec_tokens_decreases(gs: Seq<Seq<char>>, cl: spec_fn(Seq<char>) -> SortingType) {
    if gs.len() > 0 {
        lemma_run_len_bounds(gs, cl);
    }
}

/// The classification function of a classifier, as a spec closure.
pub open spec fn classifier_fn<C: Classify>(c: C) -> spec_fn(Seq<char>) -> SortingType {
    |g: Seq<char>| c.classify_spec(g)
}

/// `run_len` is the unique cut: the graphemes before it agree with the
/// first one's classification and the one right after it (if any) does not.
proof fn lemma_run_len_exact(
    gs: Seq<Seq<char>>,
    cl: spec_fn(Seq<char>) -> SortingType,
    n: int,
)
    requires
        1 <= n <= gs.len(),
        forall|j: int| 0 <= j < n ==> cl(#[trigger] gs[j]) == cl(gs[0]),
        n < gs.len() ==> cl(gs[n]) != cl(gs[0]),
    ensures
        run_len(gs, cl) == n,
    decreases gs.len(),
{
    if n == 1 {
        if gs.len() > 1 {
            assert(cl(gs[1]) != cl(gs[0]));
        }
    } else {
        assert(cl(gs[1]) == cl(gs[0]));
        let tail = gs.drop_first();
        assert forall|j: int| 0 <= j < n - 1 implies cl(#[trigger] tail[j]) == cl(tail[0]) by {
            assert(tail[j] == gs[j + 1]);
            assert(tail[0] == gs[1]);
        }
        if n - 1 < tail.len() {
            assert(tail[n - 1] == gs[n]);
        }
        lemma_run_len_exact(tail, cl, n - 1);
    }
}

/// Every grapheme of the leading run agrees with the first one's
/// classification.
pub proof fn lemma_run_len_agrees(gs: Seq<Seq<char>>, cl: spec_fn(Seq<char>) -> SortingType)
    requires
        gs.len() > 0,
    ensures
        forall|j: int| 0 <= j < run_len(gs, cl) ==> cl(#[trigger] gs[j]) == cl(gs[0]),
        run_len(gs, cl) < gs.len() ==> cl(gs[run_len(gs, cl) as int]) != cl(gs[0]),
    decreases gs.len(),
{
    lemma_run_len_bounds(gs, cl);
    if gs.len() > 1 && cl(gs[1]) == cl(gs[0]) {
        let tail = gs.drop_first();
        lemma_run_len_agrees(tail, cl);
        assert forall|j: int| 0 <= j < run_len(gs, cl) implies cl(#[trigger] gs[j]) == cl(
            gs[0],
        ) by {
            if j > 0 {
                assert(gs[j] == tail[j - 1]);
            }
        }
        if run_len(gs, cl) < gs.len() {
            assert(gs[run_len(gs, cl) as int] == tail[run_len(tail, cl) as int]);
        }
    }
}

/// A lazy tokenizer: walks the graphemes of a source string and hands out
/// one maximal same-classification run per pull.
pub struct TokenIterator<C: Classify> {
    classifier: C,
    graphemes: Vec<String>,
    pos: usize,
}

impl<C: Classify> TokenIterator<C> {
    #[verifier::type_invariant]
    spec fn wf(self) -> bool {
        self.pos <= self.graphemes.len()
    }

    /// The classifier this tokenizer was built with.
    pub closed spec fn classifier(self) -> C {
        self.classifier
    }

    /// The graphemes not yet consumed.
    pub closed spec fn remaining_graphemes(self) -> Seq<Seq<char>> {
        grapheme_views(self.graphemes@).skip(self.pos as int)
    }

    /// The tokens this tokenizer has yet to yield.
    pub open spec fn toks(self) -> Seq<(Seq<char>, SortingType)> {
        spec_tokens(self.remaining_graphemes(), classifier_fn(self.classifier()))
    }

    /// Builds a tokenizer over the graphemes of `s`, driven by `classifier`.
    pub fn new(s: &str, classifier: C) -> (it: Self)
        ensures
            it.classifier() == classifier,
            it.remaining_graphemes() == grapheme_seq(s@),
            well_segmented(s@),
    {
        let graphemes = graphemes_of(s);
        proof {
            assert(grapheme_views(graphemes@).skip(0) =~= grapheme_views(graphemes@));
        }
        TokenIterator { classifier, graphemes, pos: 0 }
    }

    /// Yields the next token: the concatenation of the longest leading run
    /// of remaining graphemes whose classifications agree, tagged with that
    /// classification; `None` once the graphemes are exhausted.
    pub fn next(&mut self) -> (r: Option<(String, SortingType)>)
        ensures
            old(self).toks().len() == 0 ==> r is None && *final (self) == *old(self),
            old(self).toks().len() > 0 ==> {
                &&& (r matches Some(tok) && tok.0@ == old(self).toks()[0].0 && tok.1 == old(
                    self,
                ).toks()[0].1)
                &&& final (self).toks() == old(self).toks().drop_first()
                &&& final (self).classifier() == old(self).classifier()
            },
    {
        proof {
            use_type_invariant(&*self);
        }
        let ghost gv = grapheme_views(self.graphemes@);
        let ghost cl = classifier_fn(self.classifier);
        let ghost start = self.pos as int;
        let ghost gs = old(self).remaining_graphemes();
        if self.pos >= self.graphemes.len() {
            proof {
                assert(gs =~= Seq::<Seq<char>>::empty());
            }
            return None;
        }
        let first_class = self.classifier.classify(self.graphemes[self.pos].as_str());
        let mut text = String::new();
        text.append(self.graphemes[self.pos].as_str());
        self.pos = self.pos + 1;
        proof {
            assert(gv.subrange(start, start + 1) =~= seq![gv[start]]);
            gv.subrange(start, start + 1).lemma_flatten_one_element();
            assert(text@ =~= gv.subrange(start, start + 1).flatten());
        }
        let mut mismatch = false;
        while !mismatch && self.pos < self.graphemes.len()
            invariant
                self.graphemes@ == old(self).graphemes@,
                self.classifier == old(self).classifier,
                gv == grapheme_views(self.graphemes@),
                cl == classifier_fn(self.classifier),
                start == old(self).pos,
                start < self.pos <= gv.len(),
                first_class == cl(gv[start]),
                forall|j: int| start <= j < self.pos ==> cl(#[trigger] gv[j]) == first_class,
                text@ == gv.subrange(start, self.pos as int).flatten(),
                mismatch ==> self.pos < gv.len() && cl(gv[self.pos as int]) != first_class,
            decreases gv.len() - self.pos + (if mismatch {
                0int
            } else {
                1int
            }),
        {
            let c = self.classifier.classify(self.graphemes[self.pos].as_str());
            if c != first_class {
                mismatch = true;
            } else {
                text.append(self.graphemes[self.pos].as_str());
                proof {
                    let p = self.pos as int;
                    assert(gv.subrange(start, p + 1) =~= gv.subrange(start, p) + seq![gv[p]]);
                    vstd::seq_lib::lemma_flatten_concat(gv.subrange(start, p), seq![gv[p]]);
                    seq![gv[p]].lemma_flatten_one_element();
                }
                self.pos = self.pos + 1;
            }
        }
        proof {
            let n = self.pos - start;
            assert(gs =~= gv.skip(start));
            assert(gs[0] == gv[start]);
            assert forall|j: int| 0 <= j < n implies cl(#[trigger] gs[j]) == cl(gs[0]) by {
                assert(gs[j] == gv[start + j]);
            }
            if n < gs.len() {
                assert(gs[n] == gv[start + n]);
            }
            lemma_run_len_exact(gs, cl, n);
            assert(gs.take(n) =~= gv.subrange(start, self.pos as int));
            assert(gs.skip(n) =~= gv.skip(self.pos as int));
            let t0 = (gs.take(n).flatten(), cl(gs[0]));
            assert(old(self).toks() == seq![t0] + spec_tokens(gs.skip(n), cl));
            assert((seq![t0] + spec_tokens(gs.skip(n), cl)).drop_first() =~= spec_tokens(
                gs.skip(n),
                cl,
            ));
        }
        Some((text, first_class))
    }
}

} // verus!
