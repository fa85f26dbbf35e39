//! Word-level text utilities: splitting a line on single spaces, joining
//! words back with single spaces, string equality and substring search.
//!
//! Splitting on single spaces and rejoining with single spaces is the
//! identity on strings, so a capture built by joining a run of words is
//! exactly the corresponding substring of the original input.

use vstd::prelude::*;

verus! {

/// The words of `s`, split on single spaces. An empty string holds one
/// empty word, and consecutive spaces produce empty words, exactly as
/// `str::split(" ")` does.
pub open spec fn split_spec(s: Seq<char>) -> Seq<Seq<char>>
    decreases s.len(),
{
    if s.len() == 0 {
        seq![Seq::<char>::empty()]
    } else {
        let rest = split_spec(s.drop_last());
        if s.last() == ' ' {
            rest.push(Seq::<char>::empty())
        } else {
            rest.update(rest.len() - 1, rest.last().push(s.last()))
        }
    }
}

/// The words joined with single spaces between them.
pub open spec fn join_spec(ws: Seq<Seq<char>>) -> Seq<char>
    decreases ws.len(),
{
    if ws.len() == 0 {
        Seq::<char>::empty()
    } else if ws.len() == 1 {
        ws[0]
    } else {
        join_spec(ws.drop_last()) + seq![' '] + ws.last()
    }
}

/// `w` occurs as a contiguous substring of `s`.
pub open spec fn contains_sub(s: Seq<char>, w: Seq<char>) -> bool {
    exists|k: int| 0 <= k && k + w.len() <= s.len() && #[trigger] s.subrange(k, k + w.len()) == w
}

pub proof fn lemma_split_spec_len(s: Seq<char>)
    ensures
        split_spec(s).len() >= 1,
    decreases s.len(),
{
    if s.len() != 0 {
        lemma_split_spec_len(s.drop_last());
    }
}

/// Splitting on single spaces and rejoining with single spaces is the
/// identity on strings. This is what makes a capture group built by
/// joining a run of words the exact original substring of the input,
/// inner spacing included.
pub proof fn lemma_join_split_identity(s: Seq<char>)
    ensures
        join_spec(split_spec(s)) == s,
    decreases s.len(),
{
    if s.len() == 0 {
        assert(join_spec(split_spec(s)) =~= s);
    } else {
        lemma_join_split_identity(s.drop_last());
        lemma_split_spec_len(s.drop_last());
        let rest = split_spec(s.drop_last());
        if s.last() == ' ' {
            let pushed = rest.push(Seq::<char>::empty());
            assert(split_spec(s) == pushed);
            assert(pushed.drop_last() =~= rest);
            assert(join_spec(pushed) == join_spec(rest) + seq![' '] + Seq::<char>::empty());
            assert(join_spec(rest) + seq![' '] + Seq::<char>::empty() =~= s);
        } else {
            let upd = rest.update(rest.len() - 1, rest.last().push(s.last()));
            assert(split_spec(s) == upd);
            if rest.len() == 1 {
                assert(join_spec(upd) == upd[0]);
                assert(upd[0] == rest[0].push(s.last()));
                assert(rest[0] == join_spec(rest));
                assert(join_spec(rest).push(s.last()) =~= s);
            } else {
                assert(upd.drop_last() =~= rest.drop_last());
                assert(upd.last() == rest.last().push(s.last()));
                assert(join_spec(upd) == join_spec(rest.drop_last()) + seq![' ']
                    + rest.last().push(s.last()));
                assert(join_spec(rest) == join_spec(rest.drop_last()) + seq![' '] + rest.last());
                assert(join_spec(rest.drop_last()) + seq![' '] + rest.last().push(s.last())
                    =~= join_spec(rest).push(s.last()));
                assert(join_spec(rest).push(s.last()) =~= s);
            }
        }
    }
}

/// Equality of two string slices, decided character by character.
pub fn str_eq(a: &str, b: &str) -> (r: bool)
    ensures
        r == (a@ == b@),
{
    let na = a.unicode_len();
    let nb = b.unicode_len();
    if na != nb {
        return false;
    }
    let mut i: usize = 0;
    while i < na
        invariant
            0 <= i <= na,
            na == a@.len(),
            na == b@.len(),
            forall|j: int| 0 <= j < i ==> a@[j] == b@[j],
        decreases na - i,
    {
        if a.get_char(i) != b.get_char(i) {
            return false;
        }
        i += 1;
    }
    proof {
        assert(a@ =~= b@);
    }
    true
}

/// The words of `s`, as owned strings.
pub fn split_words(s: &str) -> (r: Vec<String>)
    ensures
        r.deep_view() == split_spec(s@),
        r.len() >= 1,
{
    let n = s.unicode_len();
    let mut out: Vec<String> = Vec::new();
    let mut start: usize = 0;
    let mut i: usize = 0;
    proof {
        assert(s@.subrange(0, 0) =~= Seq::<char>::empty());
        assert(split_spec(s@.subrange(0, 0)) =~= out.deep_view().push(s@.subrange(0, 0)));
    }
    while i < n
        invariant
            0 <= start <= i <= n,
            n == s@.len(),
            split_spec(s@.subrange(0, i as int)) == out.deep_view().push(
                s@.subrange(start as int, i as int),
            ),
        decreases n - i,
    {
        let ghost pre = s@.subrange(0, i as int);
        let ghost cur = s@.subrange(start as int, i as int);
        let ghost out0 = out.deep_view();
        let c = s.get_char(i);
        if c == ' ' {
            let w = s.substring_char(start, i).to_owned();
            out.push(w);
            start = i + 1;
        }
        i += 1;
        proof {
            let post = s@.subrange(0, i as int);
            assert(post.drop_last() =~= pre);
            assert(post.last() == c);
            let rest = split_spec(pre);
            lemma_split_spec_len(pre);
            if c == ' ' {
                assert(out.deep_view() =~= out0.push(cur));
                assert(split_spec(post) == rest.push(Seq::<char>::empty()));
                assert(s@.subrange(start as int, i as int) =~= Seq::<char>::empty());
                assert(split_spec(post) =~= out.deep_view().push(
                    s@.subrange(start as int, i as int),
                ));
            } else {
                assert(split_spec(post) == rest.update(rest.len() - 1, rest.last().push(c)));
                assert(rest.last() == cur);
                assert(rest.update(rest.len() - 1, cur.push(c)) =~= out0.push(cur.push(c)));
                assert(cur.push(c) =~= s@.subrange(start as int, i as int));
            }
        }
    }
    let w = s.substring_char(start, n).to_owned();
    out.push(w);
    proof {
        assert(s@.subrange(0, n as int) =~= s@);
        assert(out.deep_view() =~= split_spec(s@));
    }
    out
}

/// The words `ws[from..to]`, joined with single spaces.
pub fn join_words(ws: &Vec<String>, from: usize, to: usize) -> (r: String)
    requires
        from <= to <= ws.len(),
    ensures
        r@ == join_spec(ws.deep_view().subrange(from as int, to as int)),
{
    if from == to {
        proof {
            assert(ws.deep_view().subrange(from as int, to as int) =~= Seq::<Seq<char>>::empty());
        }
        return String::new();
    }
    let mut r = ws[from].clone();
    proof {
        assert(ws.deep_view().subrange(from as int, from + 1) =~= seq![ws.deep_view()[from as int]]);
    }
    let mut i: usize = from + 1;
    while i < to
        invariant
            from < i <= to <= ws.len(),
            r@ == join_spec(ws.deep_view().subrange(from as int, i as int)),
        decreases to - i,
    {
        let ghost seg = ws.deep_view().subrange(from as int, i as int);
        r.append(" ");
        r.append(ws[i].as_str());
        proof {
            reveal_strlit(" ");
            assert(" "@ =~= seq![' ']);
            let seg2 = ws.deep_view().subrange(from as int, i + 1);
            assert(seg2.drop_last() =~= seg);
            assert(seg2.last() == ws.deep_view()[i as int]);
            assert(join_spec(seg2) == join_spec(seg) + seq![' '] + ws.deep_view()[i as int]);
        }
        i += 1;
    }
    r
}

/// Substring search: does `w` occur anywhere in `s`?
pub fn str_contains(s: &str, w: &str) -> (r: bool)
    ensures
        r == contains_sub(s@, w@),
{
    let n = s.unicode_len();
    let m = w.unicode_len();
    if m > n {
        return false;
    }
    if m == 0 {
        proof {
            assert(s@.subrange(0, 0 + w@.len() as int) =~= w@);
        }
        return true;
    }
    let mut k: usize = 0;
    while k <= n - m
        invariant
            1 <= m <= n,
            0 <= k <= n - m + 1,
            n == s@.len(),
            m == w@.len(),
            forall|j: int| 0 <= j < k ==> #[trigger] s@.subrange(j, j + m as int) != w@,
        decreases n - k,
    {
        let cand = s.substring_char(k, k + m);
        if str_eq(cand, w) {
            return true;
        }
        k += 1;
    }
    false
}

} // verus!
