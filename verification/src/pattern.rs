//! The pattern matcher: matches one decomposition pattern against a line of
//! input and returns the ordered capture groups, or nothing when the pattern
//! does not decompose the input.
//!
//! A pattern is a space-delimited sequence of tokens: a literal word, the
//! wildcard `*`, or a synonym-class reference starting with `@`. A `*` marks
//! that the next literal or synonym match may be preceded by an arbitrarily
//! long (possibly empty) run of input words; that run becomes a capture
//! group. A synonym token matches any word of the referenced class and
//! captures the matched word itself.

use vstd::prelude::*;

use crate::rules::{ConfigError, Synonym, SynonymV};
use crate::text::{join_spec, join_words, split_spec, split_words, str_eq};

verus! {

/// The wildcard pattern token.
pub open spec fn star_tok() -> Seq<char> {
    seq!['*']
}

/// A synonym-class token: a non-empty token starting with `@`.
pub open spec fn is_syn_tok(t: Seq<char>) -> bool {
    t.len() > 0 && t[0] == '@'
}

/// The first synonym class whose label equals `label`, if any.
pub open spec fn find_syn(syns: Seq<SynonymV>, label: Seq<char>) -> Option<SynonymV>
    decreases syns.len(),
{
    if syns.len() == 0 {
        None
    } else if syns[0].label == label {
        Some(syns[0])
    } else {
        find_syn(syns.drop_first(), label)
    }
}

/// Whether the input word `word` matches the pattern token `part`: either
/// they are equal, or `part` is a synonym-class token and `word` belongs to
/// the class. `Err` means `part` references an undefined synonym class.
pub open spec fn compat(word: Seq<char>, part: Seq<char>, syns: Seq<SynonymV>) -> Result<
    bool,
    (),
> {
    if word == part {
        Ok(true)
    } else if is_syn_tok(part) {
        match find_syn(syns, part) {
            None => Err(()),
            Some(s) => Ok(s.list.contains(word)),
        }
    } else {
        Ok(false)
    }
}

/// One step of the walk of the pattern tokens `pat` over the input words
/// `inp`. `star` records a pending wildcard and `acc` the input words the
/// pending wildcard has swallowed so far. A literal or synonym token not
/// preceded by a wildcard must match the immediately next input word;
/// preceded by one, the walk scans forward to the first matching word and
/// the skipped run becomes a capture group. A trailing wildcard captures
/// the whole remaining input. Leftover input after the last pattern token
/// is ignored.
pub open spec fn match_tokens(
    pat: Seq<Seq<char>>,
    inp: Seq<Seq<char>>,
    star: bool,
    acc: Seq<Seq<char>>,
    syns: Seq<SynonymV>,
) -> Result<Option<Seq<Seq<char>>>, ()>
    decreases pat.len(), inp.len(),
{
    if pat.len() == 0 {
        if star {
            Ok(Some(seq![join_spec(acc + inp)]))
        } else {
            Ok(Some(Seq::<Seq<char>>::empty()))
        }
    } else if pat[0] == star_tok() {
        match_tokens(pat.drop_first(), inp, true, acc, syns)
    } else if inp.len() == 0 {
        Ok(None)
    } else {
        match compat(inp[0], pat[0], syns) {
            Err(()) => Err(()),
            Ok(true) => {
                match match_tokens(
                    pat.drop_first(),
                    inp.drop_first(),
                    false,
                    Seq::<Seq<char>>::empty(),
                    syns,
                ) {
                    Err(()) => Err(()),
                    Ok(None) => Ok(None),
                    Ok(Some(gs)) => {
                        let with_syn = if is_syn_tok(pat[0]) {
                            seq![inp[0]] + gs
                        } else {
                            gs
                        };
                        if star {
                            Ok(Some(seq![join_spec(acc)] + with_syn))
                        } else {
                            Ok(Some(with_syn))
                        }
                    },
                }
            },
            Ok(false) => {
                if star {
                    match_tokens(pat, inp.drop_first(), true, acc.push(inp[0]), syns)
                } else {
                    Ok(None)
                }
            },
        }
    }
}

/// What matching the pattern `p` against the input `inp` yields: `Err` for
/// an undefined synonym-class reference, `Ok(None)` for no match, and
/// `Ok(Some(groups))` for the ordered capture groups. The pattern that is
/// exactly `*` always matches and captures the entire input as one group.
pub open spec fn match_spec(p: Seq<char>, inp: Seq<char>, syns: Seq<SynonymV>) -> Result<
    Option<Seq<Seq<char>>>,
    (),
> {
    if p == star_tok() {
        Ok(Some(seq![inp]))
    } else {
        match_tokens(split_spec(p), split_spec(inp), false, Seq::<Seq<char>>::empty(), syns)
    }
}

/// The bare wildcard pattern matches every input — even the empty one —
/// and returns exactly one capture group: the entire input.
pub proof fn lemma_star_matches_all(inp: Seq<char>, syns: Seq<SynonymV>)
    ensures
        match_spec(star_tok(), inp, syns) == Ok::<Option<Seq<Seq<char>>>, ()>(Some(seq![inp])),
{
}

fn is_star_token(t: &String) -> (r: bool)
    ensures
        r == (t@ == star_tok()),
{
    let s = t.as_str();
    if s.unicode_len() == 1 {
        let c = s.get_char(0);
        if c == '*' {
            proof {
                assert(t@ =~= star_tok());
            }
            true
        } else {
            proof {
                assert(t@[0] != star_tok()[0]);
            }
            false
        }
    } else {
        false
    }
}

fn is_syn_token(t: &String) -> (r: bool)
    ensures
        r == is_syn_tok(t@),
{
    let s = t.as_str();
    s.unicode_len() > 0 && s.get_char(0) == '@'
}

/// Whether `word` belongs to the synonym class labelled `label`. Reports
/// `UnknownSynonym` when the ruleset defines no class with that label.
pub fn is_synonym(word: &str, label: &str, synonyms: &Vec<Synonym>) -> (r: Result<
    bool,
    ConfigError,
>)
    ensures
        (match find_syn(synonyms.deep_view(), label@) {
            None => r == Err::<bool, ConfigError>(ConfigError::UnknownSynonym),
            Some(s) => r == Ok::<bool, ConfigError>(s.list.contains(word@)),
        }),
{
    let ghost sdv = synonyms.deep_view();
    proof {
        assert(sdv.skip(0) =~= sdv);
    }
    let mut i: usize = 0;
    while i < synonyms.len()
        invariant
            0 <= i <= synonyms.len(),
            sdv == synonyms.deep_view(),
            find_syn(sdv, label@) == find_syn(sdv.skip(i as int), label@),
        decreases synonyms.len() - i,
    {
        let ghost rem = sdv.skip(i as int);
        proof {
            assert(rem[0] == sdv[i as int]);
            assert(rem.drop_first() =~= sdv.skip(i + 1));
        }
        if str_eq(synonyms[i].label.as_str(), label) {
            let s = &synonyms[i];
            proof {
                assert(sdv[i as int] == synonyms@[i as int].deep_view());
                assert(find_syn(sdv, label@) == Some(sdv[i as int]));
                assert(sdv[i as int].list == s.list.deep_view());
            }
            let mut j: usize = 0;
            while j < s.list.len()
                invariant
                    0 <= j <= s.list.len(),
                    i < synonyms.len(),
                    sdv == synonyms.deep_view(),
                    find_syn(sdv, label@) == Some(sdv[i as int]),
                    sdv[i as int].list == s.list.deep_view(),
                    forall|t: int| 0 <= t < j ==> s.list.deep_view()[t] != word@,
                decreases s.list.len() - j,
            {
                if str_eq(s.list[j].as_str(), word) {
                    proof {
                        assert(s.list.deep_view()[j as int] == word@);
                        assert(s.list.deep_view().contains(word@));
                    }
                    return Ok(true);
                }
                j += 1;
            }
            proof {
                assert(!s.list.deep_view().contains(word@));
            }
            return Ok(false);
        }
        i += 1;
    }
    proof {
        assert(sdv.skip(synonyms.len() as int) =~= Seq::<SynonymV>::empty());
    }
    Err(ConfigError::UnknownSynonym)
}

/// Whether the input word matches the pattern token: equal, or a member of
/// the referenced synonym class.
pub fn is_compatible(word: &str, pattern_part: &str, synonyms: &Vec<Synonym>) -> (r: Result<
    bool,
    ConfigError,
>)
    ensures
        (match compat(word@, pattern_part@, synonyms.deep_view()) {
            Ok(b) => r == Ok::<bool, ConfigError>(b),
            Err(()) => r == Err::<bool, ConfigError>(ConfigError::UnknownSynonym),
        }),
{
    if str_eq(word, pattern_part) {
        return Ok(true);
    }
    if pattern_part.unicode_len() > 0 && pattern_part.get_char(0) == '@' {
        is_synonym(word, pattern_part, synonyms)
    } else {
        Ok(false)
    }
}

/// The walk of `match_tokens`, from pattern token `pi` and input word `ii`
/// on. `star_start` is the input position where the pending wildcard's run
/// began; without a pending wildcard it equals `ii`.
fn match_toks(
    pat: &Vec<String>,
    inp: &Vec<String>,
    pi: usize,
    ii: usize,
    star: bool,
    star_start: usize,
    syns: &Vec<Synonym>,
) -> (r: Result<Option<Vec<String>>, ConfigError>)
    requires
        pi <= pat.len(),
        ii <= inp.len(),
        star_start <= ii,
        !star ==> star_start == ii,
    ensures
        (match match_tokens(
            pat.deep_view().skip(pi as int),
            inp.deep_view().skip(ii as int),
            star,
            inp.deep_view().subrange(star_start as int, ii as int),
            syns.deep_view(),
        ) {
            Err(()) => r == Err::<Option<Vec<String>>, ConfigError>(ConfigError::UnknownSynonym),
            Ok(None) => r == Ok::<Option<Vec<String>>, ConfigError>(None),
            Ok(Some(gs)) => r is Ok && r->Ok_0 is Some && r->Ok_0->0.deep_view() == gs,
        }),
    decreases pat.len() - pi, inp.len() - ii,
{
    let ghost pdv = pat.deep_view().skip(pi as int);
    let ghost idv = inp.deep_view().skip(ii as int);
    let ghost acc = inp.deep_view().subrange(star_start as int, ii as int);
    if pi == pat.len() {
        proof {
            assert(pdv =~= Seq::<Seq<char>>::empty());
        }
        if star {
            let cap = join_words(inp, star_start, inp.len());
            proof {
                assert(acc + idv =~= inp.deep_view().subrange(
                    star_start as int,
                    inp.deep_view().len() as int,
                ));
            }
            let mut gs: Vec<String> = Vec::new();
            gs.push(cap);
            proof {
                assert(gs.deep_view() =~= seq![join_spec(acc + idv)]);
            }
            Ok(Some(gs))
        } else {
            let gs: Vec<String> = Vec::new();
            proof {
                assert(gs.deep_view() =~= Seq::<Seq<char>>::empty());
            }
            Ok(Some(gs))
        }
    } else {
        proof {
            assert(pdv[0] == pat.deep_view()[pi as int]);
            assert(pdv.drop_first() =~= pat.deep_view().skip(pi + 1));
        }
        let tok = &pat[pi];
        if is_star_token(tok) {
            match_toks(pat, inp, pi + 1, ii, true, star_start, syns)
        } else if ii == inp.len() {
            proof {
                assert(idv =~= Seq::<Seq<char>>::empty());
            }
            Ok(None)
        } else {
            proof {
                assert(idv[0] == inp.deep_view()[ii as int]);
                assert(idv.drop_first() =~= inp.deep_view().skip(ii + 1));
            }
            match is_compatible(inp[ii].as_str(), tok.as_str(), syns) {
                Err(e) => Err(e),
                Ok(true) => {
                    proof {
                        assert(inp.deep_view().subrange(ii + 1, ii + 1)
                            =~= Seq::<Seq<char>>::empty());
                    }
                    match match_toks(pat, inp, pi + 1, ii + 1, false, ii + 1, syns) {
                        Err(e) => Err(e),
                        Ok(None) => Ok(None),
                        Ok(Some(mut gs)) => {
                            let ghost gs0 = gs.deep_view();
                            if is_syn_token(tok) {
                                let wcap = inp[ii].clone();
                                gs.insert(0, wcap);
                                proof {
                                    assert(gs.deep_view() =~= seq![idv[0]] + gs0);
                                }
                            }
                            if star {
                                let ghost gs1 = gs.deep_view();
                                let scap = join_words(inp, star_start, ii);
                                gs.insert(0, scap);
                                proof {
                                    assert(gs.deep_view() =~= seq![join_spec(acc)] + gs1);
                                }
                            }
                            Ok(Some(gs))
                        },
                    }
                },
                Ok(false) => {
                    if star {
                        proof {
                            assert(acc.push(idv[0]) =~= inp.deep_view().subrange(
                                star_start as int,
                                ii + 1,
                            ));
                        }
                        match_toks(pat, inp, pi, ii + 1, true, star_start, syns)
                    } else {
                        Ok(None)
                    }
                },
            }
        }
    }
}

/// Matches a pattern, and returns the matched groups.
///
/// Each capture is the exact original substring of the input (a run of
/// words joined with single spaces). `Ok(None)` means the pattern does not
/// decompose the input; `UnknownSynonym` is reported when the pattern
/// references a synonym class the ruleset does not define.
pub fn match_pattern(pattern: &str, input: &str, synonyms: &Vec<Synonym>) -> (r: Result<
    Option<Vec<String>>,
    ConfigError,
>)
    ensures
        (match match_spec(pattern@, input@, synonyms.deep_view()) {
            Err(()) => r == Err::<Option<Vec<String>>, ConfigError>(ConfigError::UnknownSynonym),
            Ok(None) => r == Ok::<Option<Vec<String>>, ConfigError>(None),
            Ok(Some(gs)) => r is Ok && r->Ok_0 is Some && r->Ok_0->0.deep_view() == gs,
        }),
{
    if pattern.unicode_len() == 1 && pattern.get_char(0) == '*' {
        proof {
            assert(pattern@ =~= star_tok());
        }
        let mut gs: Vec<String> = Vec::new();
        gs.push(input.to_owned());
        proof {
            assert(gs.deep_view() =~= seq![input@]);
        }
        return Ok(Some(gs));
    }
    proof {
        if pattern@.len() == 1 && pattern@[0] == '*' {
            assert(pattern@ =~= star_tok());
            assert(false);
        }
        assert(pattern@ != star_tok());
    }
    let pat = split_words(pattern);
    let inp = split_words(input);
    proof {
        assert(pat.deep_view().skip(0) =~= pat.deep_view());
        assert(inp.deep_view().skip(0) =~= inp.deep_view());
        assert(inp.deep_view().subrange(0, 0) =~= Seq::<Seq<char>>::empty());
    }
    match_toks(&pat, &inp, 0, 0, false, 0, synonyms)
}

} // verus!
