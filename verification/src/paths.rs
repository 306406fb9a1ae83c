//! Verified operations on filesystem paths, modelled as UTF-8 strings with
//! `/` as the separator.
//!
//! The conventions mirror the usual ones: the file name is everything after
//! the last separator; the extension is everything after the last dot of the
//! file name, provided that dot is not its first character.

use vstd::prelude::*;
use crate::text::{last_index_of, lemma_last_index_of, rfind_char, check_match_at, matches_at};

verus! {

/// Everything after the last `/`, possibly empty.
pub open spec fn file_name_of(p: Seq<char>) -> Seq<char> {
    p.subrange(last_index_of(p, '/') + 1, p.len() as int)
}

/// Index of the dot separating stem and extension in a file name,
/// or `-1` when the name has no extension.  A leading dot opens no
/// extension.
pub open spec fn ext_split(n: Seq<char>) -> int {
    if last_index_of(n, '.') > 0 {
        last_index_of(n, '.')
    } else {
        -1
    }
}

/// The file name carries an extension.
pub open spec fn name_has_ext(n: Seq<char>) -> bool {
    ext_split(n) >= 0
}

/// The file name without its extension.
pub open spec fn stem_of_name(n: Seq<char>) -> Seq<char> {
    if name_has_ext(n) {
        n.subrange(0, ext_split(n))
    } else {
        n
    }
}

/// The extension of a file name that has one.
pub open spec fn ext_of_name(n: Seq<char>) -> Seq<char> {
    n.subrange(ext_split(n) + 1, n.len() as int)
}

/// The stem of the path's file name.
pub open spec fn file_stem_of(p: Seq<char>) -> Seq<char> {
    stem_of_name(file_name_of(p))
}

/// The extension of the path's file name, when there is one.
pub open spec fn extension_of(p: Seq<char>) -> Option<Seq<char>> {
    if file_name_of(p).len() > 0 && name_has_ext(file_name_of(p)) {
        Some(ext_of_name(file_name_of(p)))
    } else {
        None
    }
}

/// `p` with its extension replaced by (or extended with) `ext`.
pub open spec fn with_ext_of(p: Seq<char>, ext: Seq<char>) -> Seq<char> {
    let n = file_name_of(p);
    let base = if name_has_ext(n) {
        p.subrange(0, p.len() - (n.len() - ext_split(n)))
    } else {
        p
    };
    base + seq!['.'] + ext
}

/// `base` and `rel` joined with a separator; an absolute `rel` replaces
/// `base`.
pub open spec fn join_of(base: Seq<char>, rel: Seq<char>) -> Seq<char> {
    if rel.len() > 0 && rel[0] == '/' {
        rel
    } else if base.len() == 0 {
        rel
    } else if base[base.len() - 1] == '/' {
        base + rel
    } else {
        base + seq!['/'] + rel
    }
}

/// The directory part of `p`: everything before the last `/`; the root
/// stays the root, and a path without separator has the empty parent.
pub open spec fn parent_of(p: Seq<char>) -> Seq<char> {
    let k = last_index_of(p, '/');
    if k < 0 {
        Seq::empty()
    } else if k == 0 {
        seq!['/']
    } else {
        p.subrange(0, k)
    }
}

/// `p` relative to `base`: `p` with `base` and one separator removed in
/// front, or nothing when `p` does not lie under `base`.
pub open spec fn strip_prefix_of(p: Seq<char>, base: Seq<char>) -> Option<Seq<char>> {
    if p == base {
        Some(Seq::empty())
    } else if base.len() > 0 && base[base.len() - 1] == '/' && p.len() > base.len()
        && p.subrange(0, base.len() as int) == base {
        Some(p.subrange(base.len() as int, p.len() as int))
    } else if p.len() > base.len() + 1 && p.subrange(0, base.len() as int) == base && p[
        base.len() as int
    ] == '/' {
        Some(p.subrange(base.len() as int + 1, p.len() as int))
    } else {
        None
    }
}

/// Relates the last occurrence of `c` in a suffix to the one in the whole.
pub proof fn lemma_last_index_sub(p: Seq<char>, c: char, a: int)
    requires
        0 <= a <= p.len(),
    ensures
        last_index_of(p.subrange(a, p.len() as int), c) == if last_index_of(p, c) >= a {
            last_index_of(p, c) - a
        } else {
            -1
        },
    decreases p.len(),
{
    lemma_last_index_of(p, c);
    let sub = p.subrange(a, p.len() as int);
    if sub.len() == 0 {
        assert(last_index_of(p, c) < a);
    } else if p[p.len() - 1] == c {
        assert(sub[sub.len() - 1] == c);
    } else {
        assert(sub[sub.len() - 1] == p[p.len() - 1]);
        assert(sub.drop_last() =~= p.drop_last().subrange(a, p.drop_last().len() as int));
        lemma_last_index_sub(p.drop_last(), c, a);
    }
}

/// The file name of the path, when it is non-empty.
pub fn file_name(p: &str) -> (r: Option<String>)
    ensures
        match r {
            Some(n) => file_name_of(p@).len() > 0 && n@ == file_name_of(p@),
            None => file_name_of(p@).len() == 0,
        },
{
    let len = p.unicode_len();
    proof {
        lemma_last_index_of(p@, '/');
    }
    let start: usize = match rfind_char(p, '/') {
        Some(k) => k + 1,
        None => 0,
    };
    if start == len {
        None
    } else {
        Some(p.substring_char(start, len).to_owned())
    }
}

/// The stem (file name without extension) of the path, when the file name
/// is non-empty.
pub fn file_stem(p: &str) -> (r: Option<String>)
    ensures
        match r {
            Some(n) => file_name_of(p@).len() > 0 && n@ == file_stem_of(p@),
            None => file_name_of(p@).len() == 0,
        },
{
    match file_name(p) {
        None => None,
        Some(name) => {
            let nlen = name.as_str().unicode_len();
            proof {
                lemma_last_index_of(name@, '.');
            }
            match rfind_char(name.as_str(), '.') {
                Some(k) if k > 0 => Some(name.as_str().substring_char(0, k).to_owned()),
                _ => Some(name),
            }
        },
    }
}

/// The extension of the path, when the file name has one.
pub fn extension(p: &str) -> (r: Option<String>)
    ensures
        match r {
            Some(e) => extension_of(p@) == Some(e@),
            None => extension_of(p@) is None,
        },
{
    match file_name(p) {
        None => None,
        Some(name) => {
            let nlen = name.as_str().unicode_len();
            proof {
                lemma_last_index_of(name@, '.');
            }
            match rfind_char(name.as_str(), '.') {
                Some(k) if k > 0 => Some(
                    name.as_str().substring_char(k + 1, nlen).to_owned(),
                ),
                _ => None,
            }
        },
    }
}

/// `p` with its extension replaced by (or extended with) `ext`.
pub fn with_extension(p: &str, ext: &str) -> (r: String)
    ensures
        r@ == with_ext_of(p@, ext@),
{
    let len = p.unicode_len();
    proof {
        lemma_last_index_of(p@, '/');
        lemma_last_index_of(p@, '.');
    }
    let start: usize = match rfind_char(p, '/') {
        Some(k) => k + 1,
        None => 0,
    };
    proof {
        lemma_last_index_sub(p@, '.', start as int);
    }
    let cut: usize = match rfind_char(p, '.') {
        Some(d) if d > start => d,
        _ => len,
    };
    proof {
        let n = file_name_of(p@);
        if cut < len {
            assert(ext_split(n) == cut - start);
            assert(p@.subrange(0, cut as int) =~= p@.subrange(
                0,
                p@.len() - (n.len() - ext_split(n)),
            ));
        } else {
            assert(!name_has_ext(n));
        }
    }
    let mut out = p.substring_char(0, cut).to_owned();
    out.append(".");
    out.append(ext);
    proof {
        reveal_strlit(".");
        assert(out@ =~= with_ext_of(p@, ext@));
    }
    out
}

/// Joins `base` and `rel` with a separator; an absolute `rel` replaces
/// `base`.
pub fn join_path(base: &str, rel: &str) -> (r: String)
    ensures
        r@ == join_of(base@, rel@),
{
    let blen = base.unicode_len();
    let rlen = rel.unicode_len();
    if rlen > 0 && rel.get_char(0) == '/' {
        return rel.to_owned();
    }
    if blen == 0 {
        return rel.to_owned();
    }
    let mut out = base.to_owned();
    if base.get_char(blen - 1) != '/' {
        out.append("/");
        proof {
            reveal_strlit("/");
            assert(out@ =~= base@ + seq!['/']);
        }
    }
    out.append(rel);
    proof {
        assert(out@ =~= join_of(base@, rel@));
    }
    out
}

/// The directory part of `p`.
pub fn parent_dir(p: &str) -> (r: String)
    ensures
        r@ == parent_of(p@),
{
    proof {
        lemma_last_index_of(p@, '/');
    }
    match rfind_char(p, '/') {
        None => {
            let r = String::new();
            proof {
                assert(r@ =~= parent_of(p@));
            }
            r
        },
        Some(k) if k == 0 => {
            let r = "/".to_owned();
            proof {
                reveal_strlit("/");
                assert(r@ =~= parent_of(p@));
            }
            r
        },
        Some(k) => p.substring_char(0, k).to_owned(),
    }
}

/// `p` relative to `base`, when `p` lies under `base`.
pub fn strip_prefix(p: &str, base: &str) -> (r: Option<String>)
    ensures
        match r {
            Some(s) => strip_prefix_of(p@, base@) == Some(s@),
            None => strip_prefix_of(p@, base@) is None,
        },
{
    let plen = p.unicode_len();
    let blen = base.unicode_len();
    if crate::text::str_eq(p, base) {
        let r = String::new();
        proof {
            assert(r@ =~= Seq::<char>::empty());
        }
        return Some(r);
    }
    if blen > 0 && base.get_char(blen - 1) == '/' && plen > blen && check_match_at(p, base, 0) {
        proof {
            assert(p@.subrange(0, blen as int) == base@);
        }
        return Some(p.substring_char(blen, plen).to_owned());
    }
    if plen > blen && plen - 1 > blen && check_match_at(p, base, 0) && p.get_char(blen) == '/' {
        proof {
            assert(p@.subrange(0, blen as int) == base@);
        }
        return Some(p.substring_char(blen + 1, plen).to_owned());
    }
    proof {
        if p@.len() > base@.len() && matches_at(p@, base@, 0) {
            assert(p@.subrange(0, base@.len() as int) == base@);
        }
    }
    None
}

/// One step of lexical normalisation: `.` vanishes, `..` swallows the
/// component before it where one is there to swallow, anything else is
/// kept.  In an absolute path a `..` at the top vanishes; in a relative
/// one it stays.
pub open spec fn norm_step(stack: Seq<Seq<char>>, c: Seq<char>, absolute: bool) -> Seq<
    Seq<char>,
> {
    if c == "."@ {
        stack
    } else if c == ".."@ {
        if stack.len() > 0 && stack.last() != ".."@ {
            stack.drop_last()
        } else if absolute {
            stack
        } else {
            stack.push(c)
        }
    } else {
        stack.push(c)
    }
}

/// The components left after normalising `comps` from `i` on onto the
/// stack.
pub open spec fn norm_fold(
    comps: Seq<Seq<char>>,
    i: int,
    stack: Seq<Seq<char>>,
    absolute: bool,
) -> Seq<Seq<char>>
    decreases comps.len() - i,
{
    if i < 0 || i >= comps.len() {
        stack
    } else {
        norm_fold(comps, i + 1, norm_step(stack, comps[i], absolute), absolute)
    }
}

/// The components joined with separators.
pub open spec fn joined_components(xs: Seq<Seq<char>>) -> Seq<char>
    decreases xs.len(),
{
    if xs.len() == 0 {
        Seq::empty()
    } else if xs.len() == 1 {
        xs[0]
    } else {
        xs[0] + seq!['/'] + joined_components(xs.subrange(1, xs.len() as int))
    }
}

proof fn lemma_joined_push(xs: Seq<Seq<char>>, x: Seq<char>)
    ensures
        joined_components(xs.push(x)) == if xs.len() == 0 {
            x
        } else {
            joined_components(xs) + seq!['/'] + x
        },
    decreases xs.len(),
{
    let ys = xs.push(x);
    if xs.len() == 0 {
        assert(ys[0] == x);
    } else {
        assert(ys.subrange(1, ys.len() as int) =~= xs.subrange(1, xs.len() as int).push(x));
        lemma_joined_push(xs.subrange(1, xs.len() as int), x);
        if xs.len() == 1 {
            assert(xs.subrange(1, 1) =~= Seq::<Seq<char>>::empty());
            assert(joined_components(ys) == ys[0] + seq!['/'] + x);
        } else {
            assert(ys[0] + seq!['/'] + (joined_components(xs.subrange(1, xs.len() as int))
                + seq!['/'] + x) =~= (xs[0] + seq!['/'] + joined_components(
                xs.subrange(1, xs.len() as int),
            )) + seq!['/'] + x);
        }
    }
}

/// `p` normalised lexically: `.` and resolvable `..` components removed.
pub open spec fn normalized(p: Seq<char>) -> Seq<char> {
    let absolute = p.len() > 0 && p[0] == '/';
    let kept = norm_fold(components_of(p), 0, Seq::empty(), absolute);
    if absolute {
        seq!['/'] + joined_components(kept)
    } else {
        joined_components(kept)
    }
}

/// Normalises a path lexically.
pub fn normalize_path(p: &str) -> (r: String)
    ensures
        r@ == normalized(p@),
{
    let plen = p.unicode_len();
    let absolute = plen > 0 && p.get_char(0) == '/';
    let comps = split_components(p);
    let ghost cs = components_of(p@);
    let mut stack: Vec<String> = Vec::new();
    let mut i: usize = 0;
    proof {
        assert(stack.deep_view() =~= Seq::<Seq<char>>::empty());
    }
    while i < comps.len()
        invariant
            i <= comps.len(),
            cs == comps.deep_view(),
            cs.len() == comps.len(),
            norm_fold(cs, i as int, stack.deep_view(), absolute) == norm_fold(
                cs,
                0,
                Seq::empty(),
                absolute,
            ),
        decreases comps.len() - i,
    {
        proof {
            reveal_strlit(".");
            reveal_strlit("..");
            assert(cs[i as int] == comps@[i as int]@);
        }
        let ghost before = stack.deep_view();
        let c = &comps[i];
        if crate::text::str_eq(c.as_str(), ".") {
        } else if crate::text::str_eq(c.as_str(), "..") {
            let keep_dots = match stack.len() {
                0 => true,
                n => crate::text::str_eq(stack[n - 1].as_str(), ".."),
            };
            if !keep_dots {
                stack.pop();
                proof {
                    assert(stack.deep_view() =~= before.drop_last());
                }
            } else if absolute {
            } else {
                stack.push(c.clone());
                proof {
                    assert(stack.deep_view() =~= before.push(cs[i as int]));
                }
            }
        } else {
            stack.push(c.clone());
            proof {
                assert(stack.deep_view() =~= before.push(cs[i as int]));
            }
        }
        proof {
            assert(stack.deep_view() == norm_step(before, cs[i as int], absolute));
        }
        i = i + 1;
    }
    let ghost kept = norm_fold(cs, 0, Seq::empty(), absolute);
    proof {
        assert(stack.deep_view() == kept);
    }
    let mut out = String::new();
    if absolute {
        out.append("/");
        proof {
            reveal_strlit("/");
            assert(out@ =~= seq!['/']);
        }
    }
    let ghost head = out@;
    let mut k: usize = 0;
    proof {
        assert(stack.deep_view().subrange(0, 0) =~= Seq::<Seq<char>>::empty());
        assert(out@ =~= head + joined_components(stack.deep_view().subrange(0, 0)));
    }
    while k < stack.len()
        invariant
            k <= stack.len(),
            stack.deep_view() == kept,
            stack.deep_view().len() == stack.len(),
            out@ == head + joined_components(kept.subrange(0, k as int)),
            k > 0 <==> kept.subrange(0, k as int).len() > 0,
        decreases stack.len() - k,
    {
        if k > 0 {
            out.append("/");
        }
        out.append(stack[k].as_str());
        proof {
            reveal_strlit("/");
            assert(kept[k as int] == stack@[k as int]@);
            assert(kept.subrange(0, k + 1) =~= kept.subrange(0, k as int).push(
                kept[k as int],
            ));
            lemma_joined_push(kept.subrange(0, k as int), kept[k as int]);
            assert(out@ =~= head + joined_components(kept.subrange(0, k + 1)));
        }
        k = k + 1;
    }
    proof {
        assert(kept.subrange(0, kept.len() as int) =~= kept);
        assert(out@ =~= normalized(p@));
    }
    out
}

/// The non-empty `/`-separated pieces of a relative path.
pub open spec fn nonempty_of(xs: Seq<Seq<char>>) -> Seq<Seq<char>>
    decreases xs.len(),
{
    if xs.len() == 0 {
        Seq::empty()
    } else if xs[0].len() > 0 {
        seq![xs[0]] + nonempty_of(xs.subrange(1, xs.len() as int))
    } else {
        nonempty_of(xs.subrange(1, xs.len() as int))
    }
}

/// The components of a relative path.
pub open spec fn components_of(s: Seq<char>) -> Seq<Seq<char>> {
    nonempty_of(crate::text::split_list(s, '/'))
}

/// Splits a relative path into its non-empty components.
pub fn split_components(s: &str) -> (r: Vec<String>)
    ensures
        r.deep_view() == components_of(s@),
{
    let pieces = crate::text::split_on_char(s, '/');
    let mut res: Vec<String> = Vec::new();
    let mut i: usize = 0;
    proof {
        assert(pieces@.subrange(0, pieces@.len() as int) =~= pieces@);
        assert(pieces.deep_view().subrange(0, pieces@.len() as int) =~= pieces.deep_view());
    }
    while i < pieces.len()
        invariant
            i <= pieces.len(),
            res.deep_view() + nonempty_of(
                pieces.deep_view().subrange(i as int, pieces.deep_view().len() as int),
            ) =~= nonempty_of(pieces.deep_view()),
        decreases pieces.len() - i,
    {
        let ghost rest = pieces.deep_view().subrange(i as int, pieces.deep_view().len() as int);
        proof {
            assert(rest[0] == pieces.deep_view()[i as int]);
            assert(rest.subrange(1, rest.len() as int) =~= pieces.deep_view().subrange(
                i + 1,
                pieces.deep_view().len() as int,
            ));
        }
        let piece = &pieces[i];
        let ghost old_res = res.deep_view();
        if piece.as_str().unicode_len() > 0 {
            res.push(piece.clone());
            proof {
                assert(res.deep_view() =~= old_res + seq![piece@]);
            }
        }
        i = i + 1;
    }
    proof {
        assert(pieces.deep_view().subrange(
            pieces.deep_view().len() as int,
            pieces.deep_view().len() as int,
        ) =~= Seq::<Seq<char>>::empty());
        assert(res.deep_view() =~= nonempty_of(pieces.deep_view()));
    }
    res
}

} // verus!
