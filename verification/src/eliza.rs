//! The interaction engine: one turn of conversation. The input is
//! normalized (trimmed, lowercased), checked against the quit phrases,
//! rewritten through the `pre` table, run through the keyword selector,
//! and the winning decomposition's captures are poured into one of its
//! reassembly templates, with the `post` table applied to each capture.

use vstd::prelude::*;

use crate::pattern::{match_pattern, match_spec};
use crate::rules::{
    ConfigError, Decomposition, DecompositionV, KeywordV, Replacement, ReplacementV, Rules, RulesV,
    SynonymV, with_weight, sorted_desc,
};
use crate::text::{contains_sub, join_spec, join_words, split_spec, split_words, str_contains,
    str_eq};

verus! {

/// What `str::trim` returns: the input without leading and trailing
/// whitespace.
pub uninterp spec fn trim_of(s: Seq<char>) -> Seq<char>;

/// What `str::to_lowercase` returns: the Unicode lowercase form.
pub uninterp spec fn lower_of(s: Seq<char>) -> Seq<char>;

/// Relies on str::trim: the result depends on the characters alone.
#[verifier::external_body]
fn trim_str(s: &str) -> (r: &str)
    ensures
        r@ == trim_of(s@),
{
    s.trim()
}

/// Relies on str::to_lowercase: the result depends on the characters alone.
#[verifier::external_body]
fn lower_str(s: &str) -> (r: String)
    ensures
        r@ == lower_of(s@),
{
    s.to_lowercase()
}

/// Relies on rand::random_range: returns a uniformly distributed value
/// below the given bound (the range is non-empty, so it does not panic).
#[verifier::external_body]
fn random_below(n: usize) -> (r: usize)
    requires
        n > 0,
    ensures
        r < n,
{
    rand::random_range(0..n)
}

/// One reply of the engine, with the flag that marks the end of the
/// conversation.
#[derive(Debug, PartialEq, Eq)]
pub struct Response {
    pub is_farewell: bool,
    pub message: String,
}

pub ghost struct ResponseV {
    pub is_farewell: bool,
    pub message: Seq<char>,
}

impl DeepView for Response {
    type V = ResponseV;

    open spec fn deep_view(&self) -> ResponseV {
        ResponseV { is_farewell: self.is_farewell, message: self.message@ }
    }
}

impl Response {
    /// An ordinary reply: the conversation goes on.
    pub fn normal(message: String) -> (r: Response)
        ensures
            !r.is_farewell,
            r.message == message,
    {
        Response { message, is_farewell: false }
    }

    /// A farewell: the conversation ends with this reply.
    pub fn farewell(message: String) -> (r: Response)
        ensures
            r.is_farewell,
            r.message == message,
    {
        Response { message, is_farewell: true }
    }
}

/// The first replacement whose `from` equals the word decides; a word
/// without an entry passes through unchanged.
pub open spec fn apply_rep(reps: Seq<ReplacementV>, w: Seq<char>) -> Seq<char>
    decreases reps.len(),
{
    if reps.len() == 0 {
        w
    } else if reps[0].from == w {
        reps[0].to
    } else {
        apply_rep(reps.drop_first(), w)
    }
}

/// Word-for-word rewriting: the text split on single spaces, each word
/// replaced by its table entry if present, and the words rejoined with
/// single spaces.
pub open spec fn rewrite_spec(s: Seq<char>, reps: Seq<ReplacementV>) -> Seq<char> {
    join_spec(split_spec(s).map_values(|w: Seq<char>| apply_rep(reps, w)))
}

fn apply_rep_exec(w: &String, reps: &Vec<Replacement>) -> (r: String)
    ensures
        r@ == apply_rep(reps.deep_view(), w@),
{
    let ghost rdv = reps.deep_view();
    proof {
        assert(rdv.skip(0) =~= rdv);
    }
    let mut i: usize = 0;
    while i < reps.len()
        invariant
            0 <= i <= reps.len(),
            rdv == reps.deep_view(),
            apply_rep(rdv, w@) == apply_rep(rdv.skip(i as int), w@),
        decreases reps.len() - i,
    {
        proof {
            assert(rdv.skip(i as int)[0] == rdv[i as int]);
            assert(rdv.skip(i as int).drop_first() =~= rdv.skip(i + 1));
        }
        if str_eq(reps[i].from.as_str(), w.as_str()) {
            return reps[i].to.clone();
        }
        i += 1;
    }
    proof {
        assert(rdv.skip(reps.len() as int) =~= Seq::<ReplacementV>::empty());
    }
    w.clone()
}

fn contains_string(v: &Vec<String>, s: &String) -> (r: bool)
    ensures
        r == v.deep_view().contains(s@),
{
    let mut i: usize = 0;
    while i < v.len()
        invariant
            0 <= i <= v.len(),
            forall|t: int| 0 <= t < i ==> v.deep_view()[t] != s@,
        decreases v.len() - i,
    {
        if str_eq(v[i].as_str(), s.as_str()) {
            proof {
                assert(v.deep_view()[i as int] == s@);
            }
            return true;
        }
        i += 1;
    }
    false
}

fn clone_string_vec(v: &Vec<String>) -> (r: Vec<String>)
    ensures
        r@ == v@,
        r.deep_view() == v.deep_view(),
{
    let mut r: Vec<String> = Vec::new();
    let mut i: usize = 0;
    while i < v.len()
        invariant
            0 <= i <= v.len(),
            r@ == v@.subrange(0, i as int),
        decreases v.len() - i,
    {
        let ghost r0 = r@;
        r.push(v[i].clone());
        proof {
            assert(r@ =~= v@.subrange(0, i + 1));
        }
        i += 1;
    }
    proof {
        assert(v@.subrange(0, v@.len() as int) =~= v@);
        assert(r.deep_view() =~= v.deep_view());
    }
    r
}

fn clone_decomposition(d: &Decomposition) -> (r: Decomposition)
    ensures
        r.deep_view() == d.deep_view(),
{
    Decomposition { pattern: d.pattern.clone(), reasmb: clone_string_vec(&d.reasmb) }
}

/// An ASCII decimal digit.
pub open spec fn is_digit(c: char) -> bool {
    '0' as u32 <= c as u32 && c as u32 <= '9' as u32
}

/// The value of an ASCII decimal digit.
pub open spec fn digit_val(c: char) -> int {
    c as u32 - '0' as u32
}

/// A group reference: a token opening with `(` whose second character is a
/// digit. Only single digits are read, so groups beyond 9 cannot be
/// referenced — a design limitation preserved on purpose.
pub open spec fn is_group_tok(t: Seq<char>) -> bool {
    t.len() >= 2 && t[0] == '(' && is_digit(t[1])
}

/// One template token: a group reference becomes the referenced capture
/// rewritten through the `post` table; an out-of-range reference (including
/// digit 0, since groups are 1-based) is a configuration error; any other
/// token passes through unchanged.
pub open spec fn format_tok(
    t: Seq<char>,
    groups: Seq<Seq<char>>,
    post: Seq<ReplacementV>,
) -> Result<Seq<char>, ()> {
    if is_group_tok(t) {
        let d = digit_val(t[1]);
        if 1 <= d && d <= groups.len() {
            Ok(rewrite_spec(groups[d - 1], post))
        } else {
            Err(())
        }
    } else {
        Ok(t)
    }
}

/// All template tokens expanded in order, failing on the first bad group
/// reference.
pub open spec fn format_toks(
    toks: Seq<Seq<char>>,
    groups: Seq<Seq<char>>,
    post: Seq<ReplacementV>,
) -> Result<Seq<Seq<char>>, ()>
    decreases toks.len(),
{
    if toks.len() == 0 {
        Ok(Seq::<Seq<char>>::empty())
    } else {
        match format_tok(toks[0], groups, post) {
            Err(()) => Err(()),
            Ok(t) => match format_toks(toks.drop_first(), groups, post) {
                Err(()) => Err(()),
                Ok(rest) => Ok(seq![t] + rest),
            },
        }
    }
}

/// The template split on single spaces, each token expanded, and the
/// tokens rejoined with single spaces.
pub open spec fn format_spec(
    template: Seq<char>,
    groups: Seq<Seq<char>>,
    post: Seq<ReplacementV>,
) -> Result<Seq<char>, ()> {
    match format_toks(split_spec(template), groups, post) {
        Err(()) => Err(()),
        Ok(ts) => Ok(join_spec(ts)),
    }
}

spec fn fmt_compose(prefix: Seq<Seq<char>>, rest: Result<Seq<Seq<char>>, ()>) -> Result<
    Seq<Seq<char>>,
    (),
> {
    match rest {
        Err(()) => Err(()),
        Ok(ts) => Ok(prefix + ts),
    }
}

/// The decompositions of one keyword, tried in declared order; the first
/// whose pattern matches wins, together with its capture groups.
pub open spec fn try_decomps(
    ds: Seq<DecompositionV>,
    inp: Seq<char>,
    syns: Seq<SynonymV>,
) -> Result<Option<(Seq<Seq<char>>, DecompositionV)>, ()>
    decreases ds.len(),
{
    if ds.len() == 0 {
        Ok(None)
    } else {
        match match_spec(ds[0].pattern, inp, syns) {
            Err(()) => Err(()),
            Ok(Some(gs)) => Ok(Some((gs, ds[0]))),
            Ok(None) => try_decomps(ds.drop_first(), inp, syns),
        }
    }
}

/// The keyword selector: keywords are scanned in their stored order (the
/// engine sorts them by descending weight at construction); a keyword whose
/// literal word does not occur in the input is skipped; the first matching
/// decomposition of the first retained keyword wins.
pub open spec fn select_spec(ks: Seq<KeywordV>, inp: Seq<char>, syns: Seq<SynonymV>) -> Result<
    Option<(Seq<Seq<char>>, DecompositionV)>,
    (),
>
    decreases ks.len(),
{
    if ks.len() == 0 {
        Ok(None)
    } else if !contains_sub(inp, ks[0].word) {
        select_spec(ks.drop_first(), inp, syns)
    } else {
        match try_decomps(ks[0].decomposition, inp, syns) {
            Err(()) => Err(()),
            Ok(Some(r)) => Ok(Some(r)),
            Ok(None) => select_spec(ks.drop_first(), inp, syns),
        }
    }
}

/// The first keyword carrying the given literal word, if any.
pub open spec fn find_kw(ks: Seq<KeywordV>, word: Seq<char>) -> Option<KeywordV>
    decreases ks.len(),
{
    if ks.len() == 0 {
        None
    } else if ks[0].word == word {
        Some(ks[0])
    } else {
        find_kw(ks.drop_first(), word)
    }
}

/// What the fallback reply must look like: the `xnone` keyword's first
/// decomposition offers the templates, one of which is returned verbatim.
pub open spec fn fallback_msg(ks: Seq<KeywordV>, r: Result<Seq<char>, ConfigError>) -> bool {
    match find_kw(ks, "xnone"@) {
        None => r == Err::<Seq<char>, ConfigError>(ConfigError::MissingFallback),
        Some(k) => {
            if k.decomposition.len() == 0 {
                r == Err::<Seq<char>, ConfigError>(ConfigError::EmptyDecomposition)
            } else if k.decomposition[0].reasmb.len() == 0 {
                r == Err::<Seq<char>, ConfigError>(ConfigError::EmptyReassembly)
            } else {
                r matches Ok(m) && k.decomposition[0].reasmb.contains(m)
            }
        },
    }
}

/// What one reply built from a matched decomposition must look like: the
/// chosen template expanded with the captures, or the configuration error
/// the expansion ran into.
pub open spec fn template_reply(
    t: Seq<char>,
    gs: Seq<Seq<char>>,
    post: Seq<ReplacementV>,
    r: Result<ResponseV, ConfigError>,
) -> bool {
    match format_spec(t, gs, post) {
        Ok(m) => r matches Ok(resp) && !resp.is_farewell && resp.message == m,
        Err(()) => r == Err::<ResponseV, ConfigError>(ConfigError::GroupOutOfRange),
    }
}

/// The whole turn. Normalization runs first; an exact quit phrase ends the
/// conversation with one of the `final` phrases; otherwise the input is
/// rewritten through `pre`, the selector runs, and either a matched
/// decomposition's template or the fallback keyword's template becomes the
/// reply. Every configuration defect surfaces as its `ConfigError`.
pub open spec fn interact_post(
    rv: RulesV,
    input: Seq<char>,
    r: Result<ResponseV, ConfigError>,
) -> bool {
    let norm = lower_of(trim_of(input));
    if rv.quit.contains(norm) {
        if rv.final_.len() == 0 {
            r == Err::<ResponseV, ConfigError>(ConfigError::EmptyFinal)
        } else {
            r matches Ok(resp) && resp.is_farewell && rv.final_.contains(resp.message)
        }
    } else {
        let rw = rewrite_spec(norm, rv.pre);
        match select_spec(rv.keywords, rw, rv.synonyms) {
            Err(()) => r == Err::<ResponseV, ConfigError>(ConfigError::UnknownSynonym),
            Ok(Some(sel)) => {
                if sel.1.reasmb.len() == 0 {
                    r == Err::<ResponseV, ConfigError>(ConfigError::EmptyReassembly)
                } else {
                    exists|j: int|
                        0 <= j < sel.1.reasmb.len() && #[trigger] template_reply(
                            sel.1.reasmb[j],
                            sel.0,
                            rv.post,
                            r,
                        )
                }
            },
            Ok(None) => {
                match r {
                    Err(e) => fallback_msg(rv.keywords, Err(e)),
                    Ok(resp) => !resp.is_farewell && fallback_msg(rv.keywords, Ok(resp.message)),
                }
            },
        }
    }
}

/// The engine: a ruleset whose keywords were sorted by descending weight
/// once, at construction, and are read-only from then on.
#[derive(Debug)]
pub struct Eliza {
    pub rules: Rules,
}

impl Eliza {
    /// Builds an engine from a ruleset, sorting the keywords by descending
    /// weight once (a stable sort: keywords of equal weight keep their
    /// original order).
    pub fn new(rules: Rules) -> (e: Eliza)
        ensures
            sorted_desc(e.rules.keywords.deep_view()),
            e.rules.keywords.len() == rules.keywords.len(),
            forall|w: u8|
                #[trigger] with_weight(e.rules.keywords.deep_view(), w) == with_weight(
                    rules.keywords.deep_view(),
                    w,
                ),
            e.rules.initial == rules.initial,
            e.rules.final_ == rules.final_,
            e.rules.quit == rules.quit,
            e.rules.pre == rules.pre,
            e.rules.post == rules.post,
            e.rules.synonyms == rules.synonyms,
    {
        let mut sorted = rules;
        sorted.sort_keywords_by_reverse_weight();
        Eliza { rules: sorted }
    }

    /// Splits the text on single spaces, replaces each word by its table
    /// entry if one exists, and rejoins with single spaces.
    pub fn rewrite(input: &str, replacements: &Vec<Replacement>) -> (r: String)
        ensures
            r@ == rewrite_spec(input@, replacements.deep_view()),
    {
        let words = split_words(input);
        let ghost wdv = words.deep_view();
        let ghost rdv = replacements.deep_view();
        let ghost f = |w: Seq<char>| apply_rep(rdv, w);
        let mut out: Vec<String> = Vec::new();
        let mut i: usize = 0;
        while i < words.len()
            invariant
                0 <= i <= words.len(),
                wdv == words.deep_view(),
                rdv == replacements.deep_view(),
                f == (|w: Seq<char>| apply_rep(rdv, w)),
                out.deep_view() == wdv.map_values(f).subrange(0, i as int),
            decreases words.len() - i,
        {
            let ghost out0 = out.deep_view();
            let w = apply_rep_exec(&words[i], replacements);
            out.push(w);
            proof {
                assert(words@[i as int].deep_view() == wdv[i as int]);
                assert(w@ == f(wdv[i as int]));
                assert(out.deep_view() =~= out0.push(w@));
                assert(out.deep_view() =~= wdv.map_values(f).subrange(0, i + 1));
            }
            i += 1;
        }
        let r = join_words(&out, 0, out.len());
        proof {
            assert(out.deep_view().subrange(0, out.deep_view().len() as int) =~= out.deep_view());
            assert(out.deep_view() =~= wdv.map_values(f));
        }
        r
    }

    /// Expands a reassembly template: a token opening with `(` and a single
    /// digit names a capture group (1-based), which is inserted after being
    /// rewritten through the `post` table; every other token passes through
    /// unchanged. A reference to a group the pattern never captured is a
    /// configuration error.
    pub fn format_template(&self, template: &str, groups: &Vec<String>) -> (r: Result<
        String,
        ConfigError,
    >)
        ensures
            (match format_spec(template@, groups.deep_view(), self.rules.post.deep_view()) {
                Ok(m) => r matches Ok(s) && s@ == m,
                Err(()) => r == Err::<String, ConfigError>(ConfigError::GroupOutOfRange),
            }),
    {
        let toks = split_words(template);
        let ghost tdv = toks.deep_view();
        let ghost gdv = groups.deep_view();
        let ghost pdv = self.rules.post.deep_view();
        let mut out: Vec<String> = Vec::new();
        proof {
            assert(tdv.skip(0) =~= tdv);
            let whole = format_toks(tdv, gdv, pdv);
            if whole is Ok {
                assert(out.deep_view() + whole->Ok_0 =~= whole->Ok_0);
            }
        }
        let mut i: usize = 0;
        while i < toks.len()
            invariant
                0 <= i <= toks.len(),
                tdv == toks.deep_view(),
                tdv == split_spec(template@),
                gdv == groups.deep_view(),
                pdv == self.rules.post.deep_view(),
                format_toks(tdv, gdv, pdv) == fmt_compose(
                    out.deep_view(),
                    format_toks(tdv.skip(i as int), gdv, pdv),
                ),
            decreases toks.len() - i,
        {
            let ghost rem = tdv.skip(i as int);
            proof {
                assert(rem[0] == tdv[i as int]);
                assert(rem.drop_first() =~= tdv.skip(i + 1));
                assert(toks@[i as int].deep_view() == tdv[i as int]);
            }
            let tok = &toks[i];
            let s = tok.as_str();
            let n = s.unicode_len();
            let mut is_ref = false;
            let mut d: usize = 0;
            if n >= 2 && s.get_char(0) == '(' {
                let u = s.get_char(1) as u32;
                if '0' as u32 <= u && u <= '9' as u32 {
                    is_ref = true;
                    d = (u - '0' as u32) as usize;
                }
            }
            proof {
                assert(is_ref == is_group_tok(rem[0]));
                if is_ref {
                    assert(d as int == digit_val(rem[0][1]));
                }
            }
            if is_ref && (d < 1 || d > groups.len()) {
                proof {
                    assert(format_tok(rem[0], gdv, pdv) == Err::<Seq<char>, ()>(()));
                    assert(format_toks(rem, gdv, pdv) == Err::<Seq<Seq<char>>, ()>(()));
                }
                return Err(ConfigError::GroupOutOfRange);
            }
            let ghost out0 = out.deep_view();
            let w: String;
            if is_ref {
                w = Self::rewrite(groups[d - 1].as_str(), &self.rules.post);
                proof {
                    assert(groups@[d - 1].deep_view() == gdv[d - 1]);
                    assert(format_tok(rem[0], gdv, pdv) == Ok::<Seq<char>, ()>(w@));
                }
            } else {
                w = tok.clone();
                proof {
                    assert(format_tok(rem[0], gdv, pdv) == Ok::<Seq<char>, ()>(w@));
                }
            }
            out.push(w);
            proof {
                assert(out.deep_view() =~= out0.push(w@));
                let rest2 = format_toks(tdv.skip(i + 1), gdv, pdv);
                if rest2 is Ok {
                    assert(out0 + (seq![w@] + rest2->Ok_0) =~= out.deep_view() + rest2->Ok_0);
                }
            }
            i += 1;
        }
        proof {
            assert(tdv.skip(toks.len() as int) =~= Seq::<Seq<char>>::empty());
            assert(out.deep_view() + Seq::<Seq<char>>::empty() =~= out.deep_view());
        }
        let r = join_words(&out, 0, out.len());
        proof {
            assert(out.deep_view().subrange(0, out.deep_view().len() as int) =~= out.deep_view());
        }
        Ok(r)
    }

    /// Runs the keyword selector against the (already rewritten) input:
    /// keywords in stored order, a keyword only when its literal word
    /// occurs in the input, its decompositions in declared order; the
    /// first match wins with its capture groups.
    pub fn apply_best_matching_pattern(&self, input: &str) -> (r: Result<
        Option<(Vec<String>, Decomposition)>,
        ConfigError,
    >)
        ensures
            (match select_spec(
                self.rules.keywords.deep_view(),
                input@,
                self.rules.synonyms.deep_view(),
            ) {
                Err(()) => r == Err::<Option<(Vec<String>, Decomposition)>, ConfigError>(
                    ConfigError::UnknownSynonym,
                ),
                Ok(None) => r matches Ok(o) && o is None,
                Ok(Some(sel)) => r matches Ok(o) && o matches Some(gd) && gd.0.deep_view()
                    == sel.0 && gd.1.deep_view() == sel.1,
            }),
    {
        let ghost kdv = self.rules.keywords.deep_view();
        let ghost sdv = self.rules.synonyms.deep_view();
        proof {
            assert(kdv.skip(0) =~= kdv);
        }
        let mut i: usize = 0;
        while i < self.rules.keywords.len()
            invariant
                0 <= i <= self.rules.keywords.len(),
                kdv == self.rules.keywords.deep_view(),
                sdv == self.rules.synonyms.deep_view(),
                select_spec(kdv, input@, sdv) == select_spec(kdv.skip(i as int), input@, sdv),
            decreases self.rules.keywords.len() - i,
        {
            let ghost rem = kdv.skip(i as int);
            proof {
                assert(rem[0] == kdv[i as int]);
                assert(rem.drop_first() =~= kdv.skip(i + 1));
                assert(self.rules.keywords@[i as int].deep_view() == kdv[i as int]);
            }
            let keyword = &self.rules.keywords[i];
            if str_contains(input, keyword.word.as_str()) {
                let ghost ddv = rem[0].decomposition;
                proof {
                    assert(ddv.skip(0) =~= ddv);
                }
                let mut j: usize = 0;
                while j < keyword.decomposition.len()
                    invariant
                        0 <= j <= keyword.decomposition.len(),
                        kdv == self.rules.keywords.deep_view(),
                        sdv == self.rules.synonyms.deep_view(),
                        i < self.rules.keywords.len(),
                        keyword == &self.rules.keywords@[i as int],
                        ddv == keyword.decomposition.deep_view(),
                        select_spec(kdv, input@, sdv) == (match try_decomps(
                            ddv.skip(j as int),
                            input@,
                            sdv,
                        ) {
                            Err(()) => Err::<Option<(Seq<Seq<char>>, DecompositionV)>, ()>(()),
                            Ok(Some(sel)) => Ok::<Option<(Seq<Seq<char>>, DecompositionV)>, ()>(
                                Some(sel),
                            ),
                            Ok(None) => select_spec(kdv.skip(i + 1), input@, sdv),
                        }),
                    decreases keyword.decomposition.len() - j,
                {
                    let ghost drem = ddv.skip(j as int);
                    proof {
                        assert(drem[0] == ddv[j as int]);
                        assert(drem.drop_first() =~= ddv.skip(j + 1));
                        assert(keyword.decomposition@[j as int].deep_view() == ddv[j as int]);
                    }
                    let decomposition = &keyword.decomposition[j];
                    match match_pattern(decomposition.pattern.as_str(), input, &self.rules.synonyms)
                         {
                        Err(e) => {
                            return Err(e);
                        },
                        Ok(Some(groups)) => {
                            let d = clone_decomposition(decomposition);
                            return Ok(Some((groups, d)));
                        },
                        Ok(None) => {},
                    }
                    j += 1;
                }
                proof {
                    assert(ddv.skip(keyword.decomposition.len() as int)
                        =~= Seq::<DecompositionV>::empty());
                }
            }
            i += 1;
        }
        proof {
            assert(kdv.skip(self.rules.keywords.len() as int) =~= Seq::<KeywordV>::empty());
        }
        Ok(None)
    }

    /// The fallback reply: one of the templates of the `xnone` keyword's
    /// first decomposition, returned verbatim.
    pub fn random_response(&self) -> (r: Result<String, ConfigError>)
        ensures
            (match r {
                Err(e) => fallback_msg(self.rules.keywords.deep_view(), Err(e)),
                Ok(m) => fallback_msg(self.rules.keywords.deep_view(), Ok(m@)),
            }),
    {
        let ghost kdv = self.rules.keywords.deep_view();
        proof {
            assert(kdv.skip(0) =~= kdv);
        }
        let mut i: usize = 0;
        while i < self.rules.keywords.len()
            invariant
                0 <= i <= self.rules.keywords.len(),
                kdv == self.rules.keywords.deep_view(),
                find_kw(kdv, "xnone"@) == find_kw(kdv.skip(i as int), "xnone"@),
            decreases self.rules.keywords.len() - i,
        {
            let ghost rem = kdv.skip(i as int);
            proof {
                assert(rem[0] == kdv[i as int]);
                assert(rem.drop_first() =~= kdv.skip(i + 1));
                assert(self.rules.keywords@[i as int].deep_view() == kdv[i as int]);
            }
            let keyword = &self.rules.keywords[i];
            if str_eq(keyword.word.as_str(), "xnone") {
                if keyword.decomposition.len() == 0 {
                    return Err(ConfigError::EmptyDecomposition);
                }
                let first = &keyword.decomposition[0];
                proof {
                    assert(keyword.decomposition@[0].deep_view() == kdv[i as int].decomposition[0]);
                }
                if first.reasmb.len() == 0 {
                    return Err(ConfigError::EmptyReassembly);
                }
                let idx = random_below(first.reasmb.len());
                let m = first.reasmb[idx].clone();
                proof {
                    assert(first.reasmb@[idx as int].deep_view() == kdv[i as int].decomposition[0]
                        .reasmb[idx as int]);
                    assert(kdv[i as int].decomposition[0].reasmb.contains(m@));
                }
                return Ok(m);
            }
            i += 1;
        }
        proof {
            assert(kdv.skip(self.rules.keywords.len() as int) =~= Seq::<KeywordV>::empty());
        }
        Err(ConfigError::MissingFallback)
    }

    /// A greeting, independent of conversation state: one of the `initial`
    /// phrases, or the configuration error when that list is empty.
    pub fn greeting(&self) -> (r: Result<String, ConfigError>)
        ensures
            (match r {
                Ok(s) => self.rules.initial.deep_view().contains(s@),
                Err(e) => e == ConfigError::EmptyInitial && self.rules.initial.len() == 0,
            }),
    {
        if self.rules.initial.len() == 0 {
            return Err(ConfigError::EmptyInitial);
        }
        let idx = random_below(self.rules.initial.len());
        let s = self.rules.initial[idx].clone();
        proof {
            assert(self.rules.initial@[idx as int].deep_view()
                == self.rules.initial.deep_view()[idx as int]);
            assert(self.rules.initial.deep_view().contains(s@));
        }
        Ok(s)
    }

    /// One turn of conversation. See `interact_post` for the full story:
    /// quit phrases are matched exactly (never as substrings) against the
    /// trimmed, lowercased input; otherwise the `pre`-rewritten input runs
    /// through the selector, and the reply comes from a matched
    /// decomposition's template or from the fallback keyword.
    pub fn interact(&self, input: &str) -> (r: Result<Response, ConfigError>)
        ensures
            (match r {
                Ok(resp) => interact_post(
                    self.rules.deep_view(),
                    input@,
                    Ok(resp.deep_view()),
                ),
                Err(e) => interact_post(self.rules.deep_view(), input@, Err(e)),
            }),
    {
        let trimmed = trim_str(input);
        let normalized = lower_str(trimmed);
        if contains_string(&self.rules.quit, &normalized) {
            if self.rules.final_.len() == 0 {
                return Err(ConfigError::EmptyFinal);
            }
            let idx = random_below(self.rules.final_.len());
            let m = self.rules.final_[idx].clone();
            proof {
                assert(self.rules.final_@[idx as int].deep_view()
                    == self.rules.final_.deep_view()[idx as int]);
                assert(self.rules.final_.deep_view().contains(m@));
            }
            return Ok(Response::farewell(m));
        }
        let rewritten = Eliza::rewrite(normalized.as_str(), &self.rules.pre);
        match self.apply_best_matching_pattern(rewritten.as_str()) {
            Err(e) => Err(e),
            Ok(Some((groups, decomposition))) => {
                let ghost rv = self.rules.deep_view();
                let ghost sel = select_spec(
                    rv.keywords,
                    rewritten@,
                    rv.synonyms,
                )->Ok_0->0;
                proof {
                    assert(sel.0 == groups.deep_view());
                    assert(sel.1 == decomposition.deep_view());
                }
                if decomposition.reasmb.len() == 0 {
                    return Err(ConfigError::EmptyReassembly);
                }
                let idx = random_below(decomposition.reasmb.len());
                let template = &decomposition.reasmb[idx];
                proof {
                    assert(decomposition.reasmb@[idx as int].deep_view() == sel.1.reasmb[
                        idx as int
                    ]);
                }
                match self.format_template(template.as_str(), &groups) {
                    Ok(m) => {
                        let resp = Response::normal(m);
                        proof {
                            assert(template_reply(
                                sel.1.reasmb[idx as int],
                                sel.0,
                                rv.post,
                                Ok(resp.deep_view()),
                            ));
                        }
                        Ok(resp)
                    },
                    Err(e) => {
                        proof {
                            assert(template_reply(sel.1.reasmb[idx as int], sel.0, rv.post, Err(e)));
                        }
                        Err(e)
                    },
                }
            },
            Ok(None) => {
                match self.random_response() {
                    Ok(m) => Ok(Response::normal(m)),
                    Err(e) => Err(e),
                }
            },
        }
    }
}

} // verus!
