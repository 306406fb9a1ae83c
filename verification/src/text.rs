//! Verified character-level utilities over UTF-8 strings.
//!
//! All specifications are stated over `Seq<char>` views.  The whitespace set
//! used by trimming and tokenising is the ASCII one (space, tab, carriage
//! return, line feed).

use vstd::prelude::*;

verus! {

/// Whitespace, for trimming and query tokenisation (ASCII subset).
pub open spec fn is_space(c: char) -> bool {
    c == ' ' || c == '\t' || c == '\r' || c == '\n'
}

/// Index of the last occurrence of `c` in `s`, or `-1` when absent.
pub open spec fn last_index_of(s: Seq<char>, c: char) -> int
    decreases s.len(),
{
    if s.len() == 0 {
        -1
    } else if s[s.len() - 1] == c {
        s.len() - 1
    } else {
        last_index_of(s.drop_last(), c)
    }
}

pub proof fn lemma_last_index_of(s: Seq<char>, c: char)
    ensures
        -1 <= last_index_of(s, c) < s.len(),
        last_index_of(s, c) >= 0 ==> s[last_index_of(s, c)] == c,
        forall|j: int| last_index_of(s, c) < j < s.len() ==> s[j] != c,
    decreases s.len(),
{
    if s.len() > 0 && s[s.len() - 1] != c {
        lemma_last_index_of(s.drop_last(), c);
        assert(forall|j: int| 0 <= j < s.len() - 1 ==> s[j] == s.drop_last()[j]);
    }
}

proof fn lemma_last_index_of_prefix(s: Seq<char>, c: char, i: int)
    requires
        0 < i <= s.len(),
    ensures
        last_index_of(s.subrange(0, i), c) == if s[i - 1] == c {
            i - 1
        } else {
            last_index_of(s.subrange(0, i - 1), c)
        },
{
    let p = s.subrange(0, i);
    assert(p.drop_last() =~= s.subrange(0, i - 1));
}

/// Index of the last occurrence of `c`, scanning backwards.
pub fn rfind_char(s: &str, c: char) -> (r: Option<usize>)
    ensures
        match r {
            Some(i) => last_index_of(s@, c) == i as int,
            None => last_index_of(s@, c) == -1,
        },
{
    let n = s.unicode_len();
    let mut i = n;
    proof {
        assert(s@.subrange(0, n as int) =~= s@);
    }
    loop
        invariant
            i <= n,
            n == s@.len(),
            last_index_of(s@, c) == last_index_of(s@.subrange(0, i as int), c),
        decreases i,
    {
        if i == 0 {
            proof {
                assert(s@.subrange(0, 0) =~= Seq::<char>::empty());
            }
            return None;
        }
        let ch = s.get_char(i - 1);
        proof {
            lemma_last_index_of_prefix(s@, c, i as int);
        }
        if ch == c {
            return Some(i - 1);
        }
        i = i - 1;
    }
}

/// Index of the first occurrence of `c` in `s` at or after `from`,
/// or `s.len()` when absent there.
pub open spec fn first_index_from(s: Seq<char>, c: char, from: int) -> int
    decreases s.len() - from,
{
    if from < 0 || from >= s.len() {
        s.len() as int
    } else if s[from] == c {
        from
    } else {
        first_index_from(s, c, from + 1)
    }
}

pub proof fn lemma_first_index_from(s: Seq<char>, c: char, from: int)
    requires
        0 <= from <= s.len(),
    ensures
        from <= first_index_from(s, c, from) <= s.len(),
        first_index_from(s, c, from) < s.len() ==> s[first_index_from(s, c, from)] == c,
        forall|j: int| from <= j < first_index_from(s, c, from) ==> s[j] != c,
    decreases s.len() - from,
{
    if from < s.len() && s[from] != c {
        lemma_first_index_from(s, c, from + 1);
    }
}

/// First occurrence of `c` at or after `from`, scanning forwards.
pub fn find_char_from(s: &str, c: char, from: usize) -> (r: usize)
    requires
        from <= s@.len(),
    ensures
        r == first_index_from(s@, c, from as int),
{
    let n = s.unicode_len();
    let mut i = from;
    while i < n
        invariant
            from <= i <= n,
            n == s@.len(),
            first_index_from(s@, c, from as int) == first_index_from(s@, c, i as int),
        decreases n - i,
    {
        if s.get_char(i) == c {
            return i;
        }
        i = i + 1;
    }
    n
}

/// The needle `n` occurs in `h` starting at position `i`.
pub open spec fn matches_at(h: Seq<char>, n: Seq<char>, i: int) -> bool {
    0 <= i && i + n.len() <= h.len() && h.subrange(i, i + n.len()) == n
}

/// The needle occurs somewhere in the haystack.
pub open spec fn contains_seq(h: Seq<char>, n: Seq<char>) -> bool {
    exists|i: int| matches_at(h, n, i)
}

/// Number of occurrences of `n` in `h` starting at or after position `i`;
/// overlapping occurrences each count.
pub open spec fn count_from(h: Seq<char>, n: Seq<char>, i: int) -> nat
    decreases h.len() + 1 - i,
{
    if i < 0 || i + n.len() > h.len() {
        0
    } else {
        (if matches_at(h, n, i) {
            1nat
        } else {
            0nat
        }) + count_from(h, n, i + 1)
    }
}

/// Number of occurrences of `n` anywhere in `h`, overlapping ones included.
pub open spec fn count_occurrences(h: Seq<char>, n: Seq<char>) -> nat {
    count_from(h, n, 0)
}

/// Whether the needle occurs at position `i` of the haystack.
pub fn check_match_at(h: &str, n: &str, i: usize) -> (r: bool)
    requires
        i + n@.len() <= h@.len(),
    ensures
        r == matches_at(h@, n@, i as int),
{
    let hl = h.unicode_len();
    let m = n.unicode_len();
    let piece = h.substring_char(i, i + m);
    str_eq(piece, n)
}

/// Substring containment.
pub fn contains_str(h: &str, n: &str) -> (r: bool)
    ensures
        r == contains_seq(h@, n@),
{
    let hl = h.unicode_len();
    let nl = n.unicode_len();
    if nl > hl {
        proof {
            assert(forall|i: int| !matches_at(h@, n@, i));
        }
        return false;
    }
    if nl == 0 {
        proof {
            assert(h@.subrange(0, 0) =~= n@);
            assert(matches_at(h@, n@, 0));
        }
        return true;
    }
    let mut i: usize = 0;
    while i <= hl - nl
        invariant
            0 <= i <= hl - nl + 1,
            0 < nl <= hl,
            hl == h@.len(),
            nl == n@.len(),
            forall|j: int| 0 <= j < i ==> !matches_at(h@, n@, j),
        decreases hl - nl + 1 - i,
    {
        if check_match_at(h, n, i) {
            return true;
        }
        i = i + 1;
    }
    proof {
        assert(forall|j: int| !matches_at(h@, n@, j));
    }
    false
}

/// Count of all (overlapping) occurrences of `n` in `h`.
pub fn count_str(h: &str, n: &str) -> (r: usize)
    requires
        n@.len() > 0,
    ensures
        r == count_occurrences(h@, n@),
{
    let hl = h.unicode_len();
    let nl = n.unicode_len();
    if nl > hl {
        return 0;
    }
    let mut i: usize = 0;
    let mut acc: usize = 0;
    while i <= hl - nl
        invariant
            0 <= i <= hl - nl + 1,
            0 < nl <= hl,
            hl == h@.len(),
            nl == n@.len(),
            acc <= i,
            acc + count_from(h@, n@, i as int) == count_occurrences(h@, n@),
        decreases hl - nl + 1 - i,
    {
        if check_match_at(h, n, i) {
            acc = acc + 1;
        }
        i = i + 1;
    }
    acc
}

/// Equality of two string slices, decided character by character.
pub fn str_eq(a: &str, b: &str) -> (r: bool)
    ensures
        r == (a@ == b@),
{
    let na = a.unicode_len();
    let nb = b.unicode_len();
    if na != nb {
        return false;
    }
    let mut i: usize = 0;
    while i < na
        invariant
            i <= na,
            na == a@.len(),
            na == b@.len(),
            forall|j: int| 0 <= j < i ==> a@[j] == b@[j],
        decreases na - i,
    {
        if a.get_char(i) != b.get_char(i) {
            return false;
        }
        i = i + 1;
    }
    proof {
        assert(a@ =~= b@);
    }
    true
}

/// `s` with leading whitespace removed.
pub open spec fn trim_start_of(s: Seq<char>) -> Seq<char>
    decreases s.len(),
{
    if s.len() > 0 && is_space(s[0]) {
        trim_start_of(s.subrange(1, s.len() as int))
    } else {
        s
    }
}

/// `s` with trailing whitespace removed.
pub open spec fn trim_end_of(s: Seq<char>) -> Seq<char>
    decreases s.len(),
{
    if s.len() > 0 && is_space(s[s.len() - 1]) {
        trim_end_of(s.drop_last())
    } else {
        s
    }
}

/// `s` with whitespace removed at both ends.
pub open spec fn trim_of(s: Seq<char>) -> Seq<char> {
    trim_end_of(trim_start_of(s))
}

/// Whitespace-trimmed slice of `s`.
pub fn trim(s: &str) -> (r: &str)
    ensures
        r@ == trim_of(s@),
{
    let n = s.unicode_len();
    let mut a: usize = 0;
    proof {
        assert(s@.subrange(0, n as int) =~= s@);
    }
    while a < n && is_space_char(s.get_char(a))
        invariant
            a <= n,
            n == s@.len(),
            trim_start_of(s@) == trim_start_of(s@.subrange(a as int, n as int)),
        decreases n - a,
    {
        proof {
            assert(s@.subrange(a as int, n as int).subrange(1, n - a) =~= s@.subrange(
                a + 1,
                n as int,
            ));
        }
        a = a + 1;
    }
    proof {
        assert(trim_start_of(s@) == s@.subrange(a as int, n as int));
    }
    let mut b: usize = n;
    while b > a && is_space_char(s.get_char(b - 1))
        invariant
            a <= b <= n,
            n == s@.len(),
            trim_start_of(s@) == s@.subrange(a as int, n as int),
            trim_end_of(s@.subrange(a as int, n as int)) == trim_end_of(
                s@.subrange(a as int, b as int),
            ),
        decreases b,
    {
        proof {
            assert(s@.subrange(a as int, b as int).drop_last() =~= s@.subrange(
                a as int,
                b - 1,
            ));
        }
        b = b - 1;
    }
    proof {
        assert(trim_end_of(s@.subrange(a as int, b as int)) == s@.subrange(a as int, b as int));
    }
    s.substring_char(a, b)
}

/// Executable test for the whitespace set.
pub fn is_space_char(c: char) -> (r: bool)
    ensures
        r == is_space(c),
{
    c == ' ' || c == '\t' || c == '\r' || c == '\n'
}

/// `p` with one trailing carriage return removed, if present.
pub open spec fn strip_cr(p: Seq<char>) -> Seq<char> {
    if p.len() > 0 && p[p.len() - 1] == '\r' {
        p.drop_last()
    } else {
        p
    }
}

/// The lines of `s`: pieces between line feeds, each with one trailing
/// carriage return removed; a final line feed opens no further empty line.
pub open spec fn lines_of(s: Seq<char>) -> Seq<Seq<char>>
    decreases s.len(),
{
    if s.len() == 0 {
        Seq::empty()
    } else {
        let e = first_index_from(s, '\n', 0);
        if 0 <= e < s.len() {
            seq![strip_cr(s.subrange(0, e))] + lines_of(s.subrange(e + 1, s.len() as int))
        } else {
            seq![strip_cr(s)]
        }
    }
}

proof fn lemma_first_index_sub(s: Seq<char>, c: char, pos: int, from: int)
    requires
        0 <= pos <= s.len(),
        0 <= from <= s.len() - pos,
    ensures
        first_index_from(s.subrange(pos, s.len() as int), c, from) == first_index_from(
            s,
            c,
            pos + from,
        ) - pos,
    decreases s.len() - pos - from,
{
    let sub = s.subrange(pos, s.len() as int);
    if from < sub.len() && sub[from] != c {
        lemma_first_index_sub(s, c, pos, from + 1);
    }
}

/// Splits `s` into its lines.
pub fn split_lines(s: &str) -> (r: Vec<String>)
    ensures
        r.deep_view() == lines_of(s@),
{
    let n = s.unicode_len();
    let mut res: Vec<String> = Vec::new();
    let mut pos: usize = 0;
    proof {
        assert(s@.subrange(0, n as int) =~= s@);
        assert(res.deep_view() + lines_of(s@.subrange(0, n as int)) =~= lines_of(s@));
    }
    while pos < n
        invariant
            pos <= n,
            n == s@.len(),
            res.deep_view() + lines_of(s@.subrange(pos as int, n as int)) =~= lines_of(s@),
        decreases n - pos,
    {
        let e = find_char_from(s, '\n', pos);
        proof {
            lemma_first_index_from(s@, '\n', pos as int);
            lemma_first_index_sub(s@, '\n', pos as int, 0);
        }
        let ghost rest = s@.subrange(pos as int, n as int);
        let end2: usize = if e > pos && s.get_char(e - 1) == '\r' {
            e - 1
        } else {
            e
        };
        let piece = s.substring_char(pos, end2);
        let ghost old_res = res.deep_view();
        res.push(piece.to_owned());
        proof {
            let er = first_index_from(rest, '\n', 0);
            assert(er == e - pos);
            assert(rest.subrange(0, er) =~= s@.subrange(pos as int, e as int));
            if e < n {
                assert(rest.subrange(er + 1, rest.len() as int) =~= s@.subrange(
                    e + 1,
                    n as int,
                ));
            }
            if e > pos && s@[e - 1] == '\r' {
                assert(s@.subrange(pos as int, e as int).drop_last() =~= s@.subrange(
                    pos as int,
                    end2 as int,
                ));
            }
            assert(strip_cr(s@.subrange(pos as int, e as int)) =~= piece@);
            assert(res.deep_view() =~= old_res + seq![piece@]);
            if e < n {
                assert(res.deep_view() + lines_of(s@.subrange(e + 1, n as int)) =~= lines_of(
                    s@,
                ));
            } else {
                assert(lines_of(rest) =~= seq![piece@]);
                assert(res.deep_view() + lines_of(s@.subrange(n as int, n as int)) =~= lines_of(
                    s@,
                ));
            }
        }
        if e == n {
            pos = n;
        } else {
            pos = e + 1;
        }
    }
    proof {
        assert(lines_of(s@.subrange(n as int, n as int)) =~= Seq::<Seq<char>>::empty());
        assert(res.deep_view() =~= lines_of(s@));
    }
    res
}

/// Index of the first whitespace character at or after `i`, or `s.len()`.
pub open spec fn first_space_from(s: Seq<char>, i: int) -> int
    decreases s.len() - i,
{
    if i < 0 || i >= s.len() {
        s.len() as int
    } else if is_space(s[i]) {
        i
    } else {
        first_space_from(s, i + 1)
    }
}

pub proof fn lemma_first_space_from(s: Seq<char>, i: int)
    requires
        0 <= i <= s.len(),
    ensures
        i <= first_space_from(s, i) <= s.len(),
        first_space_from(s, i) < s.len() ==> is_space(s[first_space_from(s, i)]),
        forall|j: int| i <= j < first_space_from(s, i) ==> !is_space(s[j]),
    decreases s.len() - i,
{
    if i < s.len() && !is_space(s[i]) {
        lemma_first_space_from(s, i + 1);
    }
}

/// The whitespace-separated tokens of `s` from position `i` on.
pub open spec fn tokens_from(s: Seq<char>, i: int) -> Seq<Seq<char>>
    decreases s.len() - i, 0int
        via tokens_from_decreases
{
    if i < 0 || i >= s.len() {
        Seq::empty()
    } else if is_space(s[i]) {
        tokens_from(s, i + 1)
    } else {
        seq![s.subrange(i, first_space_from(s, i))] + tokens_from(s, first_space_from(s, i))
    }
}

#[via_fn]
proof fn tokens_from_decreases(s: Seq<char>, i: int) {
    if 0 <= i < s.len() && !is_space(s[i]) {
        lemma_first_space_from(s, i);
    }
}

/// The whitespace-separated tokens of `s`.
pub open spec fn tokens_of(s: Seq<char>) -> Seq<Seq<char>> {
    tokens_from(s, 0)
}

/// Every token is non-empty.
pub proof fn lemma_tokens_nonempty(s: Seq<char>, i: int)
    requires
        0 <= i,
    ensures
        forall|k: int|
            0 <= k < tokens_from(s, i).len() ==> #[trigger] tokens_from(s, i)[k].len() > 0,
    decreases s.len() - i, 0int,
{
    if 0 <= i < s.len() {
        if is_space(s[i]) {
            lemma_tokens_nonempty(s, i + 1);
            assert(tokens_from(s, i) == tokens_from(s, i + 1));
            assert forall|k: int|
                0 <= k < tokens_from(s, i).len() implies #[trigger] tokens_from(s, i)[k].len()
                > 0 by {
                assert(tokens_from(s, i)[k] == tokens_from(s, i + 1)[k]);
            }
        } else {
            lemma_first_space_from(s, i);
            let e = first_space_from(s, i);
            lemma_tokens_nonempty(s, e);
            assert(e > i);
            let whole = tokens_from(s, i);
            assert(whole == seq![s.subrange(i, e)] + tokens_from(s, e));
            assert forall|k: int| 0 <= k < whole.len() implies #[trigger] whole[k].len() > 0 by {
                if k == 0 {
                    assert(whole[0] == s.subrange(i, e));
                } else {
                    assert(whole[k] == tokens_from(s, e)[k - 1]);
                }
            }
        }
    }
}

/// Splits `s` into its whitespace-separated tokens.
pub fn split_tokens(s: &str) -> (r: Vec<String>)
    ensures
        r.deep_view() == tokens_of(s@),
        forall|k: int| 0 <= k < r.len() ==> #[trigger] r.deep_view()[k].len() > 0,
{
    let n = s.unicode_len();
    let mut res: Vec<String> = Vec::new();
    let mut i: usize = 0;
    while i < n
        invariant
            i <= n,
            n == s@.len(),
            res.deep_view() + tokens_from(s@, i as int) =~= tokens_of(s@),
        decreases n - i,
    {
        if is_space_char(s.get_char(i)) {
            i = i + 1;
        } else {
            proof {
                lemma_first_space_from(s@, i as int);
            }
            let mut e = i + 1;
            while e < n && !is_space_char(s.get_char(e))
                invariant
                    i < e <= n,
                    n == s@.len(),
                    forall|j: int| i <= j < e ==> !is_space(s@[j]),
                    !is_space(s@[i as int]),
                decreases n - e,
            {
                e = e + 1;
            }
            proof {
                assert(first_space_from(s@, i as int) == e as int) by {
                    lemma_first_space_from(s@, i as int);
                    let f = first_space_from(s@, i as int);
                    if f < e {
                        assert(!is_space(s@[f]));
                    }
                    if f > e {
                        assert(e < s@.len() && is_space(s@[e as int]));
                    }
                };
            }
            let piece = s.substring_char(i, e);
            let ghost old_res = res.deep_view();
            res.push(piece.to_owned());
            proof {
                assert(res.deep_view() =~= old_res + seq![piece@]);
                assert(res.deep_view() + tokens_from(s@, e as int) =~= tokens_of(s@));
            }
            i = e;
        }
    }
    proof {
        assert(res.deep_view() =~= tokens_of(s@));
        lemma_tokens_nonempty(s@, 0);
    }
    res
}

/// Pieces of `s` between occurrences of `c`; empty pieces are kept.
pub open spec fn split_list(s: Seq<char>, c: char) -> Seq<Seq<char>>
    decreases s.len(),
{
    let e = first_index_from(s, c, 0);
    if 0 <= e < s.len() {
        seq![s.subrange(0, e)] + split_list(s.subrange(e + 1, s.len() as int), c)
    } else {
        seq![s]
    }
}

/// Splits `s` at every occurrence of `c`.
pub fn split_on_char(s: &str, c: char) -> (r: Vec<String>)
    ensures
        r.deep_view() == split_list(s@, c),
{
    let n = s.unicode_len();
    let mut res: Vec<String> = Vec::new();
    let mut pos: usize = 0;
    proof {
        assert(s@.subrange(0, n as int) =~= s@);
    }
    loop
        invariant
            pos <= n,
            n == s@.len(),
            res.deep_view() + split_list(s@.subrange(pos as int, n as int), c) =~= split_list(
                s@,
                c,
            ),
        decreases n - pos,
    {
        let e = find_char_from(s, c, pos);
        proof {
            lemma_first_index_from(s@, c, pos as int);
            lemma_first_index_sub(s@, c, pos as int, 0);
        }
        let ghost rest = s@.subrange(pos as int, n as int);
        let piece = s.substring_char(pos, e);
        let ghost old_res = res.deep_view();
        res.push(piece.to_owned());
        proof {
            let er = first_index_from(rest, c, 0);
            assert(er == e - pos);
            assert(rest.subrange(0, er) =~= piece@);
            assert(res.deep_view() =~= old_res + seq![piece@]);
            if e < n {
                assert(rest.subrange(er + 1, rest.len() as int) =~= s@.subrange(
                    e + 1,
                    n as int,
                ));
            } else {
                assert(rest =~= piece@);
            }
        }
        if e == n {
            proof {
                assert(res.deep_view() =~= split_list(s@, c));
            }
            return res;
        }
        pos = e + 1;
    }
}

/// Lexicographic order on character sequences, by scalar value.
pub open spec fn lex_le(a: Seq<char>, b: Seq<char>) -> bool
    decreases a.len(),
{
    if a.len() == 0 {
        true
    } else if b.len() == 0 {
        false
    } else if (a[0] as u32) == (b[0] as u32) {
        lex_le(a.subrange(1, a.len() as int), b.subrange(1, b.len() as int))
    } else {
        (a[0] as u32) < (b[0] as u32)
    }
}

pub proof fn lemma_lex_le_total(a: Seq<char>, b: Seq<char>)
    ensures
        lex_le(a, b) || lex_le(b, a),
    decreases a.len(),
{
    if a.len() > 0 && b.len() > 0 && (a[0] as u32) == (b[0] as u32) {
        lemma_lex_le_total(a.subrange(1, a.len() as int), b.subrange(1, b.len() as int));
    }
}

pub proof fn lemma_lex_le_trans(a: Seq<char>, b: Seq<char>, c: Seq<char>)
    requires
        lex_le(a, b),
        lex_le(b, c),
    ensures
        lex_le(a, c),
    decreases a.len(),
{
    if a.len() > 0 && b.len() > 0 && c.len() > 0 {
        if (a[0] as u32) == (b[0] as u32) && (b[0] as u32) == (c[0] as u32) {
            lemma_lex_le_trans(
                a.subrange(1, a.len() as int),
                b.subrange(1, b.len() as int),
                c.subrange(1, c.len() as int),
            );
        }
    }
}

/// Lexicographic comparison of two strings, by scalar value.
pub fn str_lex_le(a: &str, b: &str) -> (r: bool)
    ensures
        r == lex_le(a@, b@),
{
    let na = a.unicode_len();
    let nb = b.unicode_len();
    let mut i: usize = 0;
    proof {
        assert(a@.subrange(0, na as int) =~= a@);
        assert(b@.subrange(0, nb as int) =~= b@);
    }
    loop
        invariant
            i <= na,
            i <= nb,
            na == a@.len(),
            nb == b@.len(),
            lex_le(a@, b@) == lex_le(
                a@.subrange(i as int, na as int),
                b@.subrange(i as int, nb as int),
            ),
        decreases na - i,
    {
        let ghost ra = a@.subrange(i as int, na as int);
        let ghost rb = b@.subrange(i as int, nb as int);
        if i == na {
            return true;
        }
        if i == nb {
            return false;
        }
        let ca = a.get_char(i);
        let cb = b.get_char(i);
        proof {
            assert(ra[0] == a@[i as int]);
            assert(rb[0] == b@[i as int]);
            assert(ra.subrange(1, ra.len() as int) =~= a@.subrange(i + 1, na as int));
            assert(rb.subrange(1, rb.len() as int) =~= b@.subrange(i + 1, nb as int));
        }
        if (ca as u32) != (cb as u32) {
            return (ca as u32) < (cb as u32);
        }
        i = i + 1;
    }
}

/// `s` consists of decimal digits only, and is non-empty.
pub open spec fn is_digits(s: Seq<char>) -> bool {
    s.len() > 0 && forall|j: int| 0 <= j < s.len() ==> '0' <= #[trigger] s[j] <= '9'
}

/// The value of a digit character.
pub open spec fn digit_val(c: char) -> int {
    c as u32 - '0' as u32
}

/// The value of a digit string.
pub open spec fn num_val(s: Seq<char>) -> int
    decreases s.len(),
{
    if s.len() == 0 {
        0
    } else {
        num_val(s.drop_last()) * 10 + digit_val(s[s.len() - 1])
    }
}

/// Parses a decimal number.  Fails on empty or non-digit input and on
/// values that do not fit in a machine word.
pub fn parse_decimal(s: &str) -> (r: Option<usize>)
    ensures
        match r {
            Some(v) => is_digits(s@) && v as int == num_val(s@) && num_val(s@)
                <= usize::MAX as int,
            None => !is_digits(s@) || num_val(s@) > usize::MAX as int,
        },
{
    let n = s.unicode_len();
    if n == 0 {
        return None;
    }
    let mut acc: usize = 0;
    let mut i: usize = 0;
    while i < n
        invariant
            i <= n,
            n == s@.len(),
            forall|j: int| 0 <= j < i ==> '0' <= #[trigger] s@[j] <= '9',
            acc as int == num_val(s@.subrange(0, i as int)),
        decreases n - i,
    {
        let c = s.get_char(i);
        if c < '0' || c > '9' {
            return None;
        }
        let d: usize = (c as u32 as usize) - ('0' as u32 as usize);
        let next = match acc.checked_mul(10) {
            Some(t) => t.checked_add(d),
            None => None,
        };
        match next {
            Some(v) => {
                acc = v;
                proof {
                    assert(s@.subrange(0, i + 1).drop_last() =~= s@.subrange(0, i as int));
                }
                i = i + 1;
            },
            None => {
                proof {
                    assert(s@.subrange(0, i + 1).drop_last() =~= s@.subrange(0, i as int));
                    assert(num_val(s@.subrange(0, i + 1)) == acc as int * 10 + d);
                    if is_digits(s@) {
                        lemma_num_val_monotone(s@.subrange(0, i + 1), s@);
                    }
                }
                return None;
            },
        }
    }
    proof {
        assert(s@.subrange(0, n as int) =~= s@);
    }
    Some(acc)
}

/// Appending digits never decreases the value.
proof fn lemma_num_val_monotone(p: Seq<char>, s: Seq<char>)
    requires
        p.len() <= s.len(),
        forall|j: int| 0 <= j < s.len() ==> '0' <= #[trigger] s[j] <= '9',
        forall|j: int| 0 <= j < p.len() ==> p[j] == s[j],
    ensures
        num_val(p) <= num_val(s),
        num_val(p) >= 0,
    decreases s.len(),
{
    if p.len() == s.len() {
        assert(p =~= s);
        lemma_num_val_nonneg(s);
    } else {
        lemma_num_val_monotone(p, s.drop_last());
        lemma_num_val_nonneg(s.drop_last());
        assert(num_val(s) == num_val(s.drop_last()) * 10 + digit_val(s[s.len() - 1]));
        assert(digit_val(s[s.len() - 1]) >= 0);
        assert(num_val(s.drop_last()) * 10 >= num_val(s.drop_last())) by (nonlinear_arith)
            requires
                num_val(s.drop_last()) >= 0,
        ;
    }
}

proof fn lemma_num_val_nonneg(s: Seq<char>)
    requires
        forall|j: int| 0 <= j < s.len() ==> '0' <= #[trigger] s[j] <= '9',
    ensures
        num_val(s) >= 0,
    decreases s.len(),
{
    if s.len() > 0 {
        lemma_num_val_nonneg(s.drop_last());
        assert(num_val(s.drop_last()) * 10 >= 0) by (nonlinear_arith)
            requires
                num_val(s.drop_last()) >= 0,
        ;
    }
}

/// The lowercase form of `s`.  Named, not spelled out: the full case-folding
/// table is the standard library's.
pub uninterp spec fn lower_of(s: Seq<char>) -> Seq<char>;

/// Relies on str::to_lowercase: the result depends on the characters alone.
#[verifier::external_body]
pub fn lowercase(s: &str) -> (r: String)
    ensures
        r@ == lower_of(s@),
{
    s.to_lowercase()
}

} // verus!
