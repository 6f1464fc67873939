//! Character-level text handling: whitespace, line and word splitting.

use vstd::prelude::*;

verus! {

/// Unicode `White_Space`, the property that `char::is_whitespace` tests.
pub open spec fn is_ws(c: char) -> bool {
    let u = c as u32;
    ||| 0x09 <= u <= 0x0d
    ||| u == 0x20
    ||| u == 0x85
    ||| u == 0xa0
    ||| u == 0x1680
    ||| 0x2000 <= u <= 0x200a
    ||| u == 0x2028
    ||| u == 0x2029
    ||| u == 0x202f
    ||| u == 0x205f
    ||| u == 0x3000
}

pub open spec fn not_newline() -> spec_fn(char) -> bool {
    |c: char| c != '\n'
}

pub open spec fn not_semicolon() -> spec_fn(char) -> bool {
    |c: char| c != ';'
}

pub open spec fn not_ws() -> spec_fn(char) -> bool {
    |c: char| !is_ws(c)
}

/// Number of leading characters of `t` that satisfy `p`.
pub open spec fn run_len(t: Seq<char>, p: spec_fn(char) -> bool) -> nat
    decreases t.len(),
{
    if t.len() == 0 || !p(t[0]) {
        0
    } else {
        1 + run_len(t.drop_first(), p)
    }
}

pub proof fn lemma_run_len_bound(t: Seq<char>, p: spec_fn(char) -> bool)
    ensures
        run_len(t, p) <= t.len(),
        forall|k: int| 0 <= k < run_len(t, p) ==> p(#[trigger] t[k]),
        run_len(t, p) < t.len() ==> !p(t[run_len(t, p) as int]),
    decreases t.len(),
{
    if t.len() > 0 && p(t[0]) {
        lemma_run_len_bound(t.drop_first(), p);
        assert forall|k: int| 0 <= k < run_len(t, p) implies p(#[trigger] t[k]) by {
            if k > 0 {
                assert(t[k] == t.drop_first()[k - 1]);
            }
        }
    }
}

/// `run_len` is characterised by where the run stops.
pub proof fn lemma_run_len_is(t: Seq<char>, p: spec_fn(char) -> bool, m: int)
    requires
        0 <= m <= t.len(),
        forall|k: int| 0 <= k < m ==> p(#[trigger] t[k]),
        m == t.len() || !p(t[m]),
    ensures
        run_len(t, p) == m,
    decreases t.len(),
{
    if m > 0 {
        assert(p(t[0]));
        assert forall|k: int| 0 <= k < m - 1 implies p(#[trigger] t.drop_first()[k]) by {
            assert(t.drop_first()[k] == t[k + 1]);
        }
        lemma_run_len_is(t.drop_first(), p, m - 1);
    }
}

/// The lines of `t`: the pieces between newline characters. A text that
/// ends in a newline has an empty last line.
pub open spec fn lines(t: Seq<char>) -> Seq<Seq<char>>
    decreases t.len(),
{
    let k = run_len(t, not_newline());
    if k >= t.len() {
        seq![t]
    } else {
        proof {
            lemma_run_len_bound(t, not_newline());
        }
        seq![t.take(k as int)] + lines(t.skip(k + 1 as int))
    }
}

/// The part of a line before its first `;`.
pub open spec fn code_part(line: Seq<char>) -> Seq<char> {
    line.take(run_len(line, not_semicolon()) as int)
}

/// The maximal runs of non-whitespace characters of `t`, in order.
pub open spec fn words(t: Seq<char>) -> Seq<Seq<char>>
    decreases t.len(),
{
    if t.len() == 0 {
        seq![]
    } else if is_ws(t[0]) {
        words(t.drop_first())
    } else {
        let n = run_len(t, not_ws());
        proof {
            lemma_run_len_bound(t, not_ws());
        }
        seq![t.take(n as int)] + words(t.skip(n as int))
    }
}

pub proof fn lemma_run_len_all(t: Seq<char>, p: spec_fn(char) -> bool)
    requires
        forall|k: int| 0 <= k < t.len() ==> p(#[trigger] t[k]),
    ensures
        run_len(t, p) == t.len(),
{
    lemma_run_len_is(t, p, t.len() as int);
}

/// A line with no `;` is all code.
pub proof fn lemma_code_part_plain(t: Seq<char>)
    requires
        forall|k: int| 0 <= k < t.len() ==> #[trigger] t[k] != ';',
    ensures
        code_part(t) == t,
{
    assert forall|k: int| 0 <= k < t.len() implies (not_semicolon())(#[trigger] t[k]) by {}
    lemma_run_len_all(t, not_semicolon());
    assert(t.take(t.len() as int) =~= t);
}

/// A nonempty run of non-whitespace characters is one word.
pub proof fn lemma_words_single(t: Seq<char>)
    requires
        t.len() > 0,
        forall|k: int| 0 <= k < t.len() ==> !is_ws(#[trigger] t[k]),
    ensures
        words(t) == seq![t],
{
    assert forall|k: int| 0 <= k < t.len() implies (not_ws())(#[trigger] t[k]) by {}
    lemma_run_len_all(t, not_ws());
    assert(t.take(t.len() as int) =~= t);
    assert(t.skip(t.len() as int) =~= Seq::<char>::empty());
    assert(!is_ws(t[0]));
    assert(words(Seq::<char>::empty()) == Seq::<Seq<char>>::empty());
    assert(words(t) == seq![t.take(t.len() as int)] + words(t.skip(t.len() as int)));
    assert(words(t) =~= seq![t] + Seq::<Seq<char>>::empty());
}

/// Two such runs with one space between them are two words.
pub proof fn lemma_words_pair(a: Seq<char>, b: Seq<char>)
    requires
        a.len() > 0,
        b.len() > 0,
        forall|k: int| 0 <= k < a.len() ==> !is_ws(#[trigger] a[k]),
        forall|k: int| 0 <= k < b.len() ==> !is_ws(#[trigger] b[k]),
    ensures
        words(a + seq![' '] + b) == seq![a, b],
{
    let t = a + seq![' '] + b;
    assert forall|k: int| 0 <= k < a.len() implies (not_ws())(#[trigger] t[k]) by {
        assert(t[k] == a[k]);
    }
    assert(!(not_ws())(t[a.len() as int]));
    lemma_run_len_is(t, not_ws(), a.len() as int);
    assert(t.take(a.len() as int) =~= a);
    let u = t.skip(a.len() as int);
    assert(u.drop_first() =~= b);
    lemma_words_single(b);
    assert(words(u) == words(u.drop_first()));
    assert(words(t) =~= seq![a] + seq![b]);
}

/// A line with no newline in it, followed by a newline, is the first line.
pub proof fn lemma_lines_first(a: Seq<char>, rest: Seq<char>)
    requires
        forall|k: int| 0 <= k < a.len() ==> #[trigger] a[k] != '\n',
    ensures
        lines(a + seq!['\n'] + rest) == seq![a] + lines(rest),
{
    let t = a + seq!['\n'] + rest;
    assert forall|k: int| 0 <= k < a.len() implies (not_newline())(#[trigger] t[k]) by {
        assert(t[k] == a[k]);
    }
    lemma_run_len_is(t, not_newline(), a.len() as int);
    assert(t.take(a.len() as int) =~= a);
    assert(t.skip(a.len() + 1 as int) =~= rest);
}

/// A run that stops inside `a` is not changed by what follows `a`.
pub proof fn lemma_run_len_prefix(a: Seq<char>, b: Seq<char>, p: spec_fn(char) -> bool)
    requires
        run_len(a, p) < a.len(),
    ensures
        run_len(a + b, p) == run_len(a, p),
{
    lemma_run_len_bound(a, p);
    let m = run_len(a, p) as int;
    let t = a + b;
    assert forall|k: int| 0 <= k < m implies p(#[trigger] t[k]) by {
        assert(t[k] == a[k]);
        assert(p(a[k]));
    }
    assert(t[m] == a[m]);
    lemma_run_len_is(t, p, m);
}

/// The lines of a text that ends in a newline, followed by more text: its
/// lines but the last, empty one, then the lines of what follows.
pub proof fn lemma_lines_append(a: Seq<char>, b: Seq<char>)
    requires
        a.len() > 0,
        a.last() == '\n',
    ensures
        lines(a).last() == Seq::<char>::empty(),
        lines(a + b) == lines(a).drop_last() + lines(b),
    decreases a.len(),
{
    let p = not_newline();
    lemma_run_len_bound(a, p);
    if run_len(a, p) == a.len() {
        assert(!p(a[a.len() - 1]) || a.len() == 0);
        assert(false);
    }
    let k = run_len(a, p) as int;
    lemma_run_len_prefix(a, b, p);
    let rest = a.skip(k + 1);
    assert((a + b).skip(k + 1) =~= rest + b);
    assert((a + b).take(k) =~= a.take(k));
    if k + 1 == a.len() {
        let e = Seq::<char>::empty();
        assert(rest =~= e);
        assert(run_len(e, p) == 0);
        assert(lines(e) == seq![e]);
        assert(rest + b =~= b);
        assert(lines(a) == seq![a.take(k)] + seq![e]);
        assert(lines(a).drop_last() =~= seq![a.take(k)]);
    } else {
        assert(rest.last() == a.last());
        lemma_lines_append(rest, b);
        assert(lines(a) == seq![a.take(k)] + lines(rest));
        assert(lines(a).drop_last() =~= seq![a.take(k)] + lines(rest).drop_last());
        assert(lines(a + b) =~= lines(a).drop_last() + lines(b));
    }
}

pub fn is_whitespace(c: char) -> (b: bool)
    ensures
        b == is_ws(c),
{
    let u = c as u32;
    (0x09 <= u && u <= 0x0d) || u == 0x20 || u == 0x85 || u == 0xa0 || u == 0x1680 || (0x2000
        <= u && u <= 0x200a) || u == 0x2028 || u == 0x2029 || u == 0x202f || u == 0x205f || u
        == 0x3000
}

/// The characters of `s`, in order.
pub fn chars_of(s: &str) -> (v: Vec<char>)
    ensures
        v@ == s@,
{
    let mut v: Vec<char> = Vec::new();
    for c in it: s.chars()
        invariant
            v@ == it.seq().take(it.index() as int),
    {
        v.push(c);
    }
    v
}

/// Copy of `cs[from..to]`.
pub fn slice_chars(cs: &Vec<char>, from: usize, to: usize) -> (r: Vec<char>)
    requires
        from <= to <= cs.len(),
    ensures
        r@ == cs@.subrange(from as int, to as int),
{
    let mut r: Vec<char> = Vec::new();
    let mut i = from;
    while i < to
        invariant
            from <= i <= to <= cs.len(),
            r@ == cs@.subrange(from as int, i as int),
        decreases to - i,
    {
        r.push(cs[i]);
        i = i + 1;
    }
    r
}

/// Index of the first `c` in `cs` at or after `from`, or `cs.len()`.
pub fn find_char(cs: &Vec<char>, from: usize, c: char) -> (j: usize)
    requires
        from <= cs.len(),
    ensures
        from <= j <= cs.len(),
        forall|k: int| from <= k < j ==> cs@[k] != c,
        j < cs.len() ==> cs@[j as int] == c,
        c == '\n' ==> j - from == run_len(cs@.skip(from as int), not_newline()),
        c == ';' ==> j - from == run_len(cs@.skip(from as int), not_semicolon()),
{
    let mut j = from;
    while j < cs.len() && cs[j] != c
        invariant
            from <= j <= cs.len(),
            forall|k: int| from <= k < j ==> cs@[k] != c,
        decreases cs.len() - j,
    {
        j = j + 1;
    }
    proof {
        let t = cs@.skip(from as int);
        if c == '\n' {
            assert forall|k: int| 0 <= k < j - from implies (not_newline())(#[trigger] t[k]) by {
                assert(t[k] == cs@[from + k]);
            }
            lemma_run_len_is(t, not_newline(), j - from);
        }
        if c == ';' {
            assert forall|k: int| 0 <= k < j - from implies (not_semicolon())(#[trigger] t[k]) by {
                assert(t[k] == cs@[from + k]);
            }
            lemma_run_len_is(t, not_semicolon(), j - from);
        }
    }
    j
}

/// The character sequences held by a sequence of character vectors.
pub open spec fn view_all(v: Seq<Vec<char>>) -> Seq<Seq<char>> {
    v.map_values(|x: Vec<char>| x@)
}

/// The words of `cs`, as `words` defines them.
pub fn split_words(cs: &Vec<char>) -> (r: Vec<Vec<char>>)
    ensures
        view_all(r@) == words(cs@),
{
    let mut r: Vec<Vec<char>> = Vec::new();
    let mut i: usize = 0;
    proof {
        assert(cs@.skip(0) =~= cs@);
    }
    while i < cs.len()
        invariant
            i <= cs.len(),
            words(cs@) == view_all(r@) + words(cs@.skip(i as int)),
        decreases cs.len() - i,
    {
        let ghost t = cs@.skip(i as int);
        if is_whitespace(cs[i]) {
            proof {
                assert(t.drop_first() =~= cs@.skip(i + 1));
            }
            i = i + 1;
        } else {
            let mut j = i;
            while j < cs.len() && !is_whitespace(cs[j])
                invariant
                    i <= j <= cs.len(),
                    forall|k: int| i <= k < j ==> !is_ws(cs@[k]),
                decreases cs.len() - j,
            {
                j = j + 1;
            }
            proof {
                assert forall|k: int| 0 <= k < j - i implies (not_ws())(#[trigger] t[k]) by {
                    assert(t[k] == cs@[i + k]);
                }
                lemma_run_len_is(t, not_ws(), j - i);
                assert(t.take(j - i) =~= cs@.subrange(i as int, j as int));
                assert(t.skip(j - i) =~= cs@.skip(j as int));
            }
            let w = slice_chars(cs, i, j);
            let ghost before = r@;
            r.push(w);
            proof {
                assert(view_all(r@) =~= view_all(before).push(w@));
                assert(words(cs@) =~= view_all(r@) + words(cs@.skip(j as int)));
            }
            i = j;
        }
    }
    proof {
        assert(cs@.skip(i as int) =~= Seq::<char>::empty());
        assert(view_all(r@) + Seq::<Seq<char>>::empty() =~= view_all(r@));
    }
    r
}

} // verus!
