//! The data model: an immutable ruleset of keywords, decomposition patterns,
//! reassembly templates, synonym classes, substitution tables and fixed
//! phrase lists, together with the configuration errors the engine can
//! surface when a ruleset turns out to be defective at the point of use.

use vstd::prelude::*;

verus! {

/// A defect in the ruleset, discovered at the point of use. The engine
/// never guesses around one of these: it reports it instead of producing
/// a wrong reply.
#[derive(Debug, Clone, Copy, PartialEq, Eq, Structural)]
pub enum ConfigError {
    /// A decomposition pattern references a synonym class that the ruleset
    /// does not define.
    UnknownSynonym,
    /// No keyword named `xnone` exists to fall back on.
    MissingFallback,
    /// A greeting was requested but the `initial` phrase list is empty.
    EmptyInitial,
    /// A farewell was owed but the `final` phrase list is empty.
    EmptyFinal,
    /// The fallback keyword has no decompositions.
    EmptyDecomposition,
    /// A matched decomposition has no reassembly templates.
    EmptyReassembly,
    /// A reassembly template references a capture group the pattern never
    /// produced.
    GroupOutOfRange,
}

/// One word-for-word substitution, applied by `Eliza::rewrite`.
#[derive(Debug)]
pub struct Replacement {
    pub from: String,
    pub to: String,
}

pub ghost struct ReplacementV {
    pub from: Seq<char>,
    pub to: Seq<char>,
}

impl DeepView for Replacement {
    type V = ReplacementV;

    open spec fn deep_view(&self) -> ReplacementV {
        ReplacementV { from: self.from@, to: self.to@ }
    }
}

/// A synonym class: a label (including its leading `@` marker) plus the
/// words considered interchangeable with it during matching.
#[derive(Debug)]
pub struct Synonym {
    pub label: String,
    pub list: Vec<String>,
}

pub ghost struct SynonymV {
    pub label: Seq<char>,
    pub list: Seq<Seq<char>>,
}

impl DeepView for Synonym {
    type V = SynonymV;

    open spec fn deep_view(&self) -> SynonymV {
        SynonymV { label: self.label@, list: self.list.deep_view() }
    }
}

/// A decomposition pattern plus its candidate reassembly templates.
#[derive(Debug)]
pub struct Decomposition {
    pub pattern: String,
    pub reasmb: Vec<String>,
}

pub ghost struct DecompositionV {
    pub pattern: Seq<char>,
    pub reasmb: Seq<Seq<char>>,
}

impl DeepView for Decomposition {
    type V = DecompositionV;

    open spec fn deep_view(&self) -> DecompositionV {
        DecompositionV { pattern: self.pattern@, reasmb: self.reasmb.deep_view() }
    }
}

/// A keyword: a literal substring trigger, a priority weight (higher is
/// checked first) and the decompositions tried in declared order.
#[derive(Debug)]
pub struct Keyword {
    pub word: String,
    pub weight: u8,
    pub decomposition: Vec<Decomposition>,
}

pub ghost struct KeywordV {
    pub word: Seq<char>,
    pub weight: u8,
    pub decomposition: Seq<DecompositionV>,
}

impl DeepView for Keyword {
    type V = KeywordV;

    open spec fn deep_view(&self) -> KeywordV {
        KeywordV {
            word: self.word@,
            weight: self.weight,
            decomposition: self.decomposition.deep_view(),
        }
    }
}

/// A full ruleset. Once an `Eliza` engine is built from it, the ruleset is
/// read-only for the lifetime of the engine.
#[derive(Debug)]
pub struct Rules {
    pub initial: Vec<String>,
    pub final_: Vec<String>,
    pub quit: Vec<String>,
    pub pre: Vec<Replacement>,
    pub post: Vec<Replacement>,
    pub synonyms: Vec<Synonym>,
    pub keywords: Vec<Keyword>,
}

pub ghost struct RulesV {
    pub initial: Seq<Seq<char>>,
    pub final_: Seq<Seq<char>>,
    pub quit: Seq<Seq<char>>,
    pub pre: Seq<ReplacementV>,
    pub post: Seq<ReplacementV>,
    pub synonyms: Seq<SynonymV>,
    pub keywords: Seq<KeywordV>,
}

impl DeepView for Rules {
    type V = RulesV;

    open spec fn deep_view(&self) -> RulesV {
        RulesV {
            initial: self.initial.deep_view(),
            final_: self.final_.deep_view(),
            quit: self.quit.deep_view(),
            pre: self.pre.deep_view(),
            post: self.post.deep_view(),
            synonyms: self.synonyms.deep_view(),
            keywords: self.keywords.deep_view(),
        }
    }
}

/// The keywords are ordered by descending weight.
pub open spec fn sorted_desc(s: Seq<KeywordV>) -> bool {
    forall|i: int, j: int| 0 <= i <= j < s.len() ==> s[i].weight >= s[j].weight
}

/// The subsequence of keywords carrying exactly the weight `w`, in order.
/// A sort is stable exactly when it preserves this subsequence for every
/// weight.
pub open spec fn with_weight(s: Seq<KeywordV>, w: u8) -> Seq<KeywordV> {
    s.filter(|k: KeywordV| k.weight == w)
}

/// Swapping two adjacent keywords of different weights leaves every
/// weight's subsequence unchanged.
proof fn lemma_swap_preserves_weights(a: Seq<KeywordV>, b: Seq<KeywordV>, j: int, w: u8)
    requires
        0 < j < a.len(),
        b.len() == a.len(),
        forall|t: int| 0 <= t < a.len() && t != j - 1 && t != j ==> a[t] == b[t],
        b[j - 1] == a[j],
        b[j] == a[j - 1],
        a[j - 1].weight != a[j].weight,
    ensures
        with_weight(a, w) == with_weight(b, w),
{
    let pre = a.subrange(0, j - 1);
    let mid_a = seq![a[j - 1], a[j]];
    let mid_b = seq![a[j], a[j - 1]];
    let post = a.subrange(j + 1, a.len() as int);
    assert(a =~= pre + mid_a + post);
    assert(b =~= pre + mid_b + post);
    Seq::filter_distributes_over_add(pre + mid_a, post, |k: KeywordV| k.weight == w);
    Seq::filter_distributes_over_add(pre, mid_a, |k: KeywordV| k.weight == w);
    Seq::filter_distributes_over_add(pre + mid_b, post, |k: KeywordV| k.weight == w);
    Seq::filter_distributes_over_add(pre, mid_b, |k: KeywordV| k.weight == w);
    reveal_with_fuel(Seq::<_>::filter, 4);
    let pred = |k: KeywordV| k.weight == w;
    assert(mid_a.drop_last() =~= seq![a[j - 1]]);
    assert(mid_b.drop_last() =~= seq![a[j]]);
    assert(seq![a[j - 1]].drop_last() =~= Seq::<KeywordV>::empty());
    assert(seq![a[j]].drop_last() =~= Seq::<KeywordV>::empty());
    assert(Seq::<KeywordV>::empty().filter(pred) =~= Seq::<KeywordV>::empty());
    assert(seq![a[j - 1]].filter(pred) == if pred(a[j - 1]) {
        seq![a[j - 1]]
    } else {
        Seq::<KeywordV>::empty()
    });
    assert(seq![a[j]].filter(pred) == if pred(a[j]) {
        seq![a[j]]
    } else {
        Seq::<KeywordV>::empty()
    });
    assert(with_weight(mid_a, w) =~= with_weight(mid_b, w));
}

impl Rules {
    /// Reorders the keywords by descending weight with a stable insertion
    /// sort: keywords of equal weight keep their original relative order,
    /// and every other field is untouched.
    pub fn sort_keywords_by_reverse_weight(&mut self)
        ensures
            sorted_desc(final(self).keywords.deep_view()),
            final(self).keywords.len() == old(self).keywords.len(),
            forall|w: u8|
                #[trigger] with_weight(final(self).keywords.deep_view(), w) == with_weight(
                    old(self).keywords.deep_view(),
                    w,
                ),
            final(self).initial == old(self).initial,
            final(self).final_ == old(self).final_,
            final(self).quit == old(self).quit,
            final(self).pre == old(self).pre,
            final(self).post == old(self).post,
            final(self).synonyms == old(self).synonyms,
    {
        let n = self.keywords.len();
        if n <= 1 {
            return ;
        }
        let mut i: usize = 1;
        while i < n
            invariant
                1 <= i <= n,
                n == self.keywords.len(),
                sorted_desc(self.keywords.deep_view().subrange(0, i as int)),
                forall|w: u8|
                    #[trigger] with_weight(self.keywords.deep_view(), w) == with_weight(
                        old(self).keywords.deep_view(),
                        w,
                    ),
                self.initial == old(self).initial,
                self.final_ == old(self).final_,
                self.quit == old(self).quit,
                self.pre == old(self).pre,
                self.post == old(self).post,
                self.synonyms == old(self).synonyms,
            decreases n - i,
        {
            let mut j: usize = i;
            proof {
                let dv = self.keywords.deep_view();
                assert(dv.subrange(0, i as int) + dv.subrange(i + 1, i + 1) =~= dv.subrange(
                    0,
                    i as int,
                ));
            }
            while j > 0 && self.keywords[j - 1].weight < self.keywords[j].weight
                invariant
                    0 <= j <= i < n,
                    n == self.keywords.len(),
                    // the sequence with the moving keyword taken out is the
                    // original sorted prefix
                    sorted_desc(
                        self.keywords.deep_view().subrange(0, j as int)
                            + self.keywords.deep_view().subrange(j + 1, i + 1),
                    ),
                    // the moving keyword outweighs everything it has passed
                    forall|t: int|
                        j < t <= i ==> self.keywords.deep_view()[j as int].weight
                            > #[trigger] self.keywords.deep_view()[t].weight,
                    forall|w: u8|
                        #[trigger] with_weight(self.keywords.deep_view(), w) == with_weight(
                            old(self).keywords.deep_view(),
                            w,
                        ),
                    self.initial == old(self).initial,
                    self.final_ == old(self).final_,
                    self.quit == old(self).quit,
                    self.pre == old(self).pre,
                    self.post == old(self).post,
                    self.synonyms == old(self).synonyms,
                decreases j,
            {
                let ghost before = self.keywords.deep_view();
                let moved = self.keywords.remove(j);
                self.keywords.insert(j - 1, moved);
                proof {
                    let after = self.keywords.deep_view();
                    assert(after =~= before.update(j - 1, before[j as int]).update(
                        j as int,
                        before[j - 1],
                    ));
                    assert forall|w: u8| #[trigger]
                        with_weight(after, w) == with_weight(before, w) by {
                        lemma_swap_preserves_weights(before, after, j as int, w);
                    }
                    assert(after.subrange(0, j - 1) + after.subrange(j as int, i + 1)
                        =~= before.subrange(0, j as int) + before.subrange(j + 1, i + 1));
                }
                j -= 1;
            }
            proof {
                let dv = self.keywords.deep_view();
                let rest = dv.subrange(0, j as int) + dv.subrange(j + 1, i + 1);
                assert forall|a: int, b: int| 0 <= a <= b < i + 1 implies dv[a].weight
                    >= dv[b].weight by {
                    if a == b {
                    } else if b == j {
                        // the loop stopped: the left neighbour outweighs the key
                        assert(dv[j - 1].weight >= dv[j as int].weight);
                        if a < j - 1 {
                            assert(rest[a] == dv[a]);
                            assert(rest[j - 1] == dv[j - 1]);
                        }
                    } else if a == j {
                        assert(dv[j as int].weight > dv[b].weight);
                    } else {
                        let a2 = if a < j { a } else { a - 1 };
                        let b2 = if b < j { b } else { b - 1 };
                        assert(rest[a2] == dv[a]);
                        assert(rest[b2] == dv[b]);
                        assert(rest[a2].weight >= rest[b2].weight);
                    }
                }
                assert(sorted_desc(dv.subrange(0, i + 1)));
            }
            i += 1;
        }
        proof {
            assert(self.keywords.deep_view() =~= self.keywords.deep_view().subrange(0, n as int));
        }
    }
}

} // verus!
