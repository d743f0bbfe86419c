//! Line splitting and whitespace tokenization for the columnar text that the
//! external network tools print.

use vstd::prelude::*;

verus! {

/// The separators the external tools emit between columns.
pub open spec fn is_ws(c: char) -> bool {
    c == ' ' || c == '\t' || c == '\r'
}

/// Index of the first occurrence of `c` in `s`, or `s.len()` if absent.
pub open spec fn find_at(s: Seq<char>, c: char) -> int
    decreases s.len(),
{
    if s.len() == 0 {
        0
    } else if s[0] == c {
        0
    } else {
        1 + find_at(s.drop_first(), c)
    }
}

/// Index of the first whitespace character in `s`, or `s.len()` if absent.
pub open spec fn find_ws(s: Seq<char>) -> int
    decreases s.len(),
{
    if s.len() == 0 {
        0
    } else if is_ws(s[0]) {
        0
    } else {
        1 + find_ws(s.drop_first())
    }
}

/// The lines of `s`: maximal runs separated by `'\n'`, with no empty line
/// after a trailing separator.
pub open spec fn split_lines(s: Seq<char>) -> Seq<Seq<char>>
    decreases s.len(),
{
    if s.len() == 0 {
        Seq::empty()
    } else {
        let i = find_at(s, '\n');
        if 0 <= i < s.len() {
            seq![s.take(i)] + split_lines(s.skip(i + 1))
        } else {
            seq![s]
        }
    }
}

/// The maximal whitespace-free tokens of `s`, in order.
pub open spec fn tokens(s: Seq<char>) -> Seq<Seq<char>>
    decreases s.len(),
{
    if s.len() == 0 {
        Seq::empty()
    } else if is_ws(s[0]) {
        tokens(s.drop_first())
    } else {
        let j = find_ws(s);
        if 0 < j <= s.len() {
            seq![s.take(j)] + tokens(s.skip(j))
        } else {
            seq![s]
        }
    }
}

/// The views of a vector of owned strings.
pub open spec fn views_of(v: Seq<String>) -> Seq<Seq<char>> {
    v.map_values(|s: String| s@)
}

pub fn is_ws_exec(c: char) -> (r: bool)
    ensures
        r == is_ws(c),
{
    c == ' ' || c == '\t' || c == '\r'
}

/// If `s` has no occurrence of `c` before `m` and either ends or has `c`
/// at `m`, then `m` is exactly where `find_at` points.
pub proof fn lemma_find_at_is(s: Seq<char>, c: char, m: int)
    requires
        0 <= m <= s.len(),
        forall|k: int| 0 <= k < m ==> s[k] != c,
        m < s.len() ==> s[m] == c,
    ensures
        find_at(s, c) == m,
    decreases s.len(),
{
    if s.len() == 0 {
    } else if s[0] == c {
    } else {
        assert forall|k: int| 0 <= k < m - 1 implies s.drop_first()[k] != c by {
            assert(s.drop_first()[k] == s[k + 1]);
        }
        if m - 1 < s.drop_first().len() {
            assert(s.drop_first()[m - 1] == s[m]);
        }
        lemma_find_at_is(s.drop_first(), c, m - 1);
    }
}

/// Splits `s` into its lines.
pub fn split_lines_exec(s: &str) -> (r: Vec<String>)
    ensures
        views_of(r@) == split_lines(s@),
{
    let n = s.unicode_len();
    let mut r: Vec<String> = Vec::new();
    let mut i: usize = 0;
    proof {
        assert(views_of(r@) =~= Seq::<Seq<char>>::empty());
        assert(s@.skip(0) =~= s@);
        assert(views_of(r@) + split_lines(s@) =~= split_lines(s@));
    }
    while i < n
        invariant
            n == s@.len(),
            i <= n,
            split_lines(s@) == views_of(r@) + split_lines(s@.skip(i as int)),
        decreases n - i,
    {
        let ghost r0 = r@;
        let ghost i0 = i as int;
        let mut j = i;
        while j < n && s.get_char(j) != '\n'
            invariant
                n == s@.len(),
                i <= j <= n,
                forall|k: int| i <= k < j ==> s@[k] != '\n',
            decreases n - j,
        {
            j += 1;
        }
        let line = s.substring_char(i, j);
        r.push(line.to_owned());
        proof {
            let t = s@.skip(i0);
            assert forall|k: int| 0 <= k < j - i0 implies t[k] != '\n' by {
                assert(t[k] == s@[i0 + k]);
            }
            if j < n {
                assert(t[j - i0] == s@[j as int]);
            }
            lemma_find_at_is(t, '\n', j - i0);
            assert(t.take(j - i0) =~= s@.subrange(i0, j as int));
            assert(views_of(r@) =~= views_of(r0).push(line@));
        }
        if j == n {
            i = n;
            proof {
                let t = s@.skip(i0);
                assert(split_lines(t) == seq![t]);
                assert(t =~= s@.subrange(i0, n as int));
                assert(s@.skip(n as int) =~= Seq::<char>::empty());
                assert(views_of(r@) + split_lines(s@.skip(i as int)) =~= views_of(r0) + seq![
                    line@,
                ]);
                assert(views_of(r0) + seq![line@] =~= views_of(r0) + split_lines(t));
            }
        } else {
            i = j + 1;
            proof {
                let t = s@.skip(i0);
                assert(split_lines(t) == seq![t.take(j - i0)] + split_lines(t.skip(j - i0 + 1)));
                assert(t.skip(j - i0 + 1) =~= s@.skip(i as int));
                assert(views_of(r@) + split_lines(s@.skip(i as int)) =~= (views_of(r0) + seq![
                    line@,
                ]) + split_lines(s@.skip(i as int)));
                assert((views_of(r0) + seq![line@]) + split_lines(s@.skip(i as int)) =~= views_of(
                    r0,
                ) + split_lines(t));
            }
        }
    }
    proof {
        assert(s@.skip(n as int) =~= Seq::<char>::empty());
        assert(views_of(r@) + split_lines(s@.skip(n as int)) =~= views_of(r@));
    }
    r
}

/// First index `j >= from` with `s[j] == c`, or `s.len()` if there is none,
/// stated through `find_at` on the tail that starts at `from`.
pub fn find_char_from(s: &str, c: char, from: usize) -> (j: usize)
    requires
        from <= s@.len(),
    ensures
        from <= j <= s@.len(),
        j - from == find_at(s@.skip(from as int), c),
{
    let n = s.unicode_len();
    let mut j = from;
    while j < n && s.get_char(j) != c
        invariant
            n == s@.len(),
            from <= j <= n,
            forall|k: int| from <= k < j ==> s@[k] != c,
        decreases n - j,
    {
        j += 1;
    }
    proof {
        let t = s@.skip(from as int);
        assert forall|k: int| 0 <= k < j - from implies t[k] != c by {
            assert(t[k] == s@[from + k]);
        }
        if j < n {
            assert(t[j - from] == s@[j as int]);
        }
        lemma_find_at_is(t, c, j - from);
    }
    j
}

/// If `s` starts with a non-whitespace run of length `m` ending at
/// whitespace or at the end, then `m` is exactly where `find_ws` points.
proof fn lemma_find_ws_is(s: Seq<char>, m: int)
    requires
        0 <= m <= s.len(),
        forall|k: int| 0 <= k < m ==> !is_ws(s[k]),
        m < s.len() ==> is_ws(s[m]),
    ensures
        find_ws(s) == m,
    decreases s.len(),
{
    if s.len() == 0 {
    } else if is_ws(s[0]) {
    } else {
        assert forall|k: int| 0 <= k < m - 1 implies !is_ws(s.drop_first()[k]) by {
            assert(s.drop_first()[k] == s[k + 1]);
        }
        if m - 1 < s.drop_first().len() {
            assert(s.drop_first()[m - 1] == s[m]);
        }
        lemma_find_ws_is(s.drop_first(), m - 1);
    }
}

/// Splits `s` into its whitespace-delimited tokens, as the socket and
/// interface parsers read the tools' columns.
pub fn split_tokens(s: &str) -> (r: Vec<String>)
    ensures
        views_of(r@) == tokens(s@),
{
    let n = s.unicode_len();
    let mut r: Vec<String> = Vec::new();
    let mut i: usize = 0;
    proof {
        assert(views_of(r@) =~= Seq::<Seq<char>>::empty());
        assert(s@.skip(0) =~= s@);
        assert(views_of(r@) + tokens(s@) =~= tokens(s@));
    }
    while i < n
        invariant
            n == s@.len(),
            i <= n,
            tokens(s@) == views_of(r@) + tokens(s@.skip(i as int)),
        decreases n - i,
    {
        let ghost r0 = r@;
        let ghost i0 = i as int;
        let c = s.get_char(i);
        if is_ws_exec(c) {
            i += 1;
            proof {
                let t = s@.skip(i0);
                assert(is_ws(t[0]));
                assert(tokens(t) == tokens(t.drop_first()));
                assert(t.drop_first() =~= s@.skip(i as int));
            }
        } else {
            let mut j = i + 1;
            while j < n && !is_ws_exec(s.get_char(j))
                invariant
                    n == s@.len(),
                    i < j <= n,
                    forall|k: int| i <= k < j ==> !is_ws(s@[k]),
                decreases n - j,
            {
                j += 1;
            }
            let tok = s.substring_char(i, j);
            r.push(tok.to_owned());
            i = j;
            proof {
                let t = s@.skip(i0);
                assert forall|k: int| 0 <= k < j - i0 implies !is_ws(t[k]) by {
                    assert(t[k] == s@[i0 + k]);
                }
                if j < n {
                    assert(t[j - i0] == s@[j as int]);
                }
                lemma_find_ws_is(t, j - i0);
                assert(!is_ws(t[0]));
                assert(tokens(t) == seq![t.take(j - i0)] + tokens(t.skip(j - i0)));
                assert(t.take(j - i0) =~= s@.subrange(i0, j as int));
                assert(t.skip(j - i0) =~= s@.skip(j as int));
                assert(views_of(r@) =~= views_of(r0).push(tok@));
                assert(views_of(r0) + tokens(t) =~= (views_of(r0) + seq![tok@]) + tokens(
                    s@.skip(i as int),
                ));
            }
        }
    }
    proof {
        assert(s@.skip(n as int) =~= Seq::<char>::empty());
        assert(views_of(r@) + tokens(s@.skip(n as int)) =~= views_of(r@));
    }
    r
}

} // verus!
