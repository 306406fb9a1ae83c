//! Frontmatter metadata: a string-keyed mapping of loosely-typed values.
//!
//! The value model keeps what the library ever reads of a YAML value:
//! strings, integers, booleans, and sequences of such scalars.  Anything
//! else — floats, nested mappings, deeper nesting — is kept as an opaque
//! entry that no accessor matches.

use vstd::prelude::*;
use crate::text::{trim_of, trim, str_eq, split_list, split_on_char, lines_of};

verus! {

/// A scalar element of a metadata sequence value.
#[derive(Debug, Clone)]
pub enum MetaScalar {
    Str(String),
    Int(i64),
    Bool(bool),
    Other,
}

/// A metadata value: string, integer, boolean, sequence of scalars, or
/// opaque.
#[derive(Debug, Clone)]
pub enum MetaValue {
    Str(String),
    Int(i64),
    Bool(bool),
    List(Vec<MetaScalar>),
    Other,
}

/// Mathematical form of a scalar.
pub enum MetaScalarView {
    Str(Seq<char>),
    Int(int),
    Bool(bool),
    Other,
}

/// Mathematical form of a value.
pub enum MetaValView {
    Str(Seq<char>),
    Int(int),
    Bool(bool),
    List(Seq<MetaScalarView>),
    Other,
}

impl View for MetaScalar {
    type V = MetaScalarView;

    open spec fn view(&self) -> MetaScalarView {
        match self {
            MetaScalar::Str(s) => MetaScalarView::Str(s@),
            MetaScalar::Int(i) => MetaScalarView::Int(*i as int),
            MetaScalar::Bool(b) => MetaScalarView::Bool(*b),
            MetaScalar::Other => MetaScalarView::Other,
        }
    }
}

impl DeepView for MetaScalar {
    type V = MetaScalarView;

    open spec fn deep_view(&self) -> MetaScalarView {
        self.view()
    }
}

impl View for MetaValue {
    type V = MetaValView;

    open spec fn view(&self) -> MetaValView {
        match self {
            MetaValue::Str(s) => MetaValView::Str(s@),
            MetaValue::Int(i) => MetaValView::Int(*i as int),
            MetaValue::Bool(b) => MetaValView::Bool(*b),
            MetaValue::List(v) => MetaValView::List(v.deep_view()),
            MetaValue::Other => MetaValView::Other,
        }
    }
}

impl DeepView for MetaValue {
    type V = MetaValView;

    open spec fn deep_view(&self) -> MetaValView {
        self.view()
    }
}

/// Metadata of one document: key/value entries as the deserializer
/// delivered them; a lookup takes the first entry carrying its key.
#[derive(Debug, Clone)]
pub struct Metadata {
    entries: Vec<(String, MetaValue)>,
}

impl View for Metadata {
    type V = Seq<(Seq<char>, MetaValView)>;

    closed spec fn view(&self) -> Seq<(Seq<char>, MetaValView)> {
        self.entries@.map_values(|p: (String, MetaValue)| (p.0@, p.1@))
    }
}

/// The value under the first entry with key `k`, if any.
pub open spec fn lookup(m: Seq<(Seq<char>, MetaValView)>, k: Seq<char>) -> Option<MetaValView>
    decreases m.len(),
{
    if m.len() == 0 {
        None
    } else if m[0].0 == k {
        Some(m[0].1)
    } else {
        lookup(m.subrange(1, m.len() as int), k)
    }
}

impl Metadata {
    /// The empty metadata.
    pub fn empty() -> (r: Metadata)
        ensures
            r@ == Seq::<(Seq<char>, MetaValView)>::empty(),
    {
        let r = Metadata { entries: Vec::new() };
        proof {
            assert(r@ =~= Seq::<(Seq<char>, MetaValView)>::empty());
        }
        r
    }

    /// The entries, in storage order.
    pub fn entries(&self) -> (r: &Vec<(String, MetaValue)>)
        ensures
            r@.map_values(|p: (String, MetaValue)| (p.0@, p.1@)) == self@,
    {
        &self.entries
    }

    /// The value stored under `key`, if any.
    pub fn get(&self, key: &str) -> (r: Option<&MetaValue>)
        ensures
            match r {
                Some(v) => lookup(self@, key@) == Some(v@),
                None => lookup(self@, key@) is None,
            },
    {
        let n = self.entries.len();
        let mut i: usize = 0;
        proof {
            assert(self@.subrange(0, self@.len() as int) =~= self@);
        }
        while i < n
            invariant
                i <= n,
                n == self.entries.len(),
                lookup(self@, key@) == lookup(
                    self@.subrange(i as int, self@.len() as int),
                    key@,
                ),
            decreases n - i,
        {
            let ghost rest = self@.subrange(i as int, self@.len() as int);
            proof {
                assert(rest[0] == self@[i as int]);
                assert(rest.subrange(1, rest.len() as int) =~= self@.subrange(
                    i + 1,
                    self@.len() as int,
                ));
            }
            if str_eq(self.entries[i].0.as_str(), key) {
                return Some(&self.entries[i].1);
            }
            i = i + 1;
        }
        None
    }
}

impl MetaScalar {
    /// A copy with the same view.
    pub fn duplicate(&self) -> (r: MetaScalar)
        ensures
            r@ == self@,
    {
        match self {
            MetaScalar::Str(s) => MetaScalar::Str(s.clone()),
            MetaScalar::Int(i) => MetaScalar::Int(*i),
            MetaScalar::Bool(b) => MetaScalar::Bool(*b),
            MetaScalar::Other => MetaScalar::Other,
        }
    }
}

impl MetaValue {
    /// A copy with the same view.
    pub fn duplicate(&self) -> (r: MetaValue)
        ensures
            r@ == self@,
    {
        match self {
            MetaValue::Str(s) => MetaValue::Str(s.clone()),
            MetaValue::Int(i) => MetaValue::Int(*i),
            MetaValue::Bool(b) => MetaValue::Bool(*b),
            MetaValue::List(items) => {
                let mut out: Vec<MetaScalar> = Vec::new();
                let mut i: usize = 0;
                proof {
                    assert(out.deep_view() =~= items.deep_view().subrange(0, 0));
                }
                while i < items.len()
                    invariant
                        i <= items.len(),
                        items.deep_view().len() == items.len(),
                        out.deep_view() =~= items.deep_view().subrange(0, i as int),
                    decreases items.len() - i,
                {
                    proof {
                        assert(items.deep_view()[i as int] == items@[i as int].deep_view());
                    }
                    let ghost before = out.deep_view();
                    out.push(items[i].duplicate());
                    proof {
                        assert(out.deep_view() =~= before.push(items.deep_view()[i as int]));
                        assert(out.deep_view() =~= items.deep_view().subrange(0, i + 1));
                    }
                    i = i + 1;
                }
                proof {
                    assert(items.deep_view().subrange(0, items.deep_view().len() as int)
                        =~= items.deep_view());
                }
                MetaValue::List(out)
            },
            MetaValue::Other => MetaValue::Other,
        }
    }
}

impl Metadata {
    /// A copy with the same view.
    pub fn duplicate(&self) -> (r: Metadata)
        ensures
            r@ == self@,
    {
        let mut out: Vec<(String, MetaValue)> = Vec::new();
        let mut i: usize = 0;
        let ghost target = self@;
        proof {
            assert(out@.map_values(|p: (String, MetaValue)| (p.0@, p.1@)) =~= target.subrange(
                0,
                0,
            ));
        }
        while i < self.entries.len()
            invariant
                i <= self.entries.len(),
                target == self@,
                target.len() == self.entries.len(),
                out@.map_values(|p: (String, MetaValue)| (p.0@, p.1@)) =~= target.subrange(
                    0,
                    i as int,
                ),
            decreases self.entries.len() - i,
        {
            proof {
                assert(target[i as int] == (self.entries@[i as int].0@, self.entries@[
                    i as int
                ].1@));
            }
            let ghost before = out@.map_values(|p: (String, MetaValue)| (p.0@, p.1@));
            let pair = (self.entries[i].0.clone(), self.entries[i].1.duplicate());
            out.push(pair);
            proof {
                assert(out@.map_values(|p: (String, MetaValue)| (p.0@, p.1@)) =~= before.push(
                    target[i as int],
                ));
                assert(out@.map_values(|p: (String, MetaValue)| (p.0@, p.1@))
                    =~= target.subrange(0, i + 1));
            }
            i = i + 1;
        }
        proof {
            assert(target.subrange(0, target.len() as int) =~= target);
        }
        let r = Metadata { entries: out };
        proof {
            assert(r@ =~= target);
        }
        r
    }

}

impl MetaValue {
    /// The string held by a string value.
    pub fn as_str(&self) -> (r: Option<&str>)
        ensures
            match r {
                Some(s) => self@ == MetaValView::Str(s@),
                None => !(self@ is Str),
            },
    {
        match self {
            MetaValue::Str(s) => Some(s.as_str()),
            _ => None,
        }
    }

    /// The integer held by an integer value.
    pub fn as_i64(&self) -> (r: Option<i64>)
        ensures
            match r {
                Some(i) => self@ == MetaValView::Int(i as int),
                None => !(self@ is Int),
            },
    {
        match self {
            MetaValue::Int(i) => Some(*i),
            _ => None,
        }
    }
}

/// The title entry, when present with a string value.
pub open spec fn title_of(m: Seq<(Seq<char>, MetaValView)>) -> Option<Seq<char>> {
    match lookup(m, "title"@) {
        Some(MetaValView::Str(s)) => Some(s),
        _ => None,
    }
}

/// The servings entry, when present with an integer value.
pub open spec fn servings_of(m: Seq<(Seq<char>, MetaValView)>) -> Option<int> {
    match lookup(m, "servings"@) {
        Some(MetaValView::Int(i)) => Some(i),
        _ => None,
    }
}

impl Metadata {
    /// The document's title, when the metadata holds one.
    pub fn title(&self) -> (r: Option<&str>)
        ensures
            match r {
                Some(s) => title_of(self@) == Some(s@),
                None => title_of(self@) is None,
            },
    {
        match self.get("title") {
            Some(v) => match v {
                MetaValue::Str(s) => Some(s.as_str()),
                _ => None,
            },
            None => None,
        }
    }

    /// The number of servings, when the metadata holds one.
    pub fn servings(&self) -> (r: Option<i64>)
        ensures
            match r {
                Some(i) => servings_of(self@) == Some(i as int),
                None => servings_of(self@) is None,
            },
    {
        match self.get("servings") {
            Some(v) => match v {
                MetaValue::Int(i) => Some(*i),
                _ => None,
            },
            None => None,
        }
    }
}

/// The comma-separated pieces of a tag string, trimmed, empties dropped.
pub open spec fn trimmed_tags(xs: Seq<Seq<char>>) -> Seq<Seq<char>>
    decreases xs.len(),
{
    if xs.len() == 0 {
        Seq::empty()
    } else {
        let t = trim_of(xs[0]);
        let rest = trimmed_tags(xs.subrange(1, xs.len() as int));
        if t.len() > 0 {
            seq![t] + rest
        } else {
            rest
        }
    }
}

/// The string elements of a sequence value, in order.
pub open spec fn string_items(xs: Seq<MetaScalarView>) -> Seq<Seq<char>>
    decreases xs.len(),
{
    if xs.len() == 0 {
        Seq::empty()
    } else {
        let rest = string_items(xs.subrange(1, xs.len() as int));
        match xs[0] {
            MetaScalarView::Str(s) => seq![s] + rest,
            _ => rest,
        }
    }
}

/// The tags carried by one metadata value: a string splits on commas,
/// a sequence keeps its string elements, anything else carries none.
pub open spec fn tags_of_value(v: MetaValView) -> Seq<Seq<char>> {
    match v {
        MetaValView::Str(s) => trimmed_tags(split_list(s, ',')),
        MetaValView::List(items) => string_items(items),
        _ => Seq::empty(),
    }
}

/// The document's tags: from the first present of the keys `tags`, `tag`.
pub open spec fn tags_of(m: Seq<(Seq<char>, MetaValView)>) -> Seq<Seq<char>> {
    match lookup(m, "tags"@) {
        Some(v) => tags_of_value(v),
        None => match lookup(m, "tag"@) {
            Some(v) => tags_of_value(v),
            None => Seq::empty(),
        },
    }
}

/// The tags carried by one value.
fn value_tags(v: &MetaValue) -> (r: Vec<String>)
    ensures
        r.deep_view() == tags_of_value(v@),
{
    let mut res: Vec<String> = Vec::new();
    match v {
        MetaValue::Str(s) => {
            let pieces = split_on_char(s.as_str(), ',');
            let mut i: usize = 0;
            proof {
                assert(pieces.deep_view().subrange(0, pieces.deep_view().len() as int)
                    =~= pieces.deep_view());
            }
            while i < pieces.len()
                invariant
                    i <= pieces.len(),
                    pieces.deep_view().len() == pieces.len(),
                    res.deep_view() + trimmed_tags(
                        pieces.deep_view().subrange(i as int, pieces.deep_view().len() as int),
                    ) =~= trimmed_tags(pieces.deep_view()),
                decreases pieces.len() - i,
            {
                let ghost rest = pieces.deep_view().subrange(
                    i as int,
                    pieces.deep_view().len() as int,
                );
                proof {
                    assert(rest[0] == pieces.deep_view()[i as int]);
                    assert(rest.subrange(1, rest.len() as int) =~= pieces.deep_view().subrange(
                        i + 1,
                        pieces.deep_view().len() as int,
                    ));
                }
                let t = trim(pieces[i].as_str());
                let ghost old_res = res.deep_view();
                if t.unicode_len() > 0 {
                    res.push(t.to_owned());
                    proof {
                        assert(res.deep_view() =~= old_res + seq![t@]);
                    }
                }
                i = i + 1;
            }
            proof {
                assert(pieces.deep_view().subrange(
                    pieces.deep_view().len() as int,
                    pieces.deep_view().len() as int,
                ) =~= Seq::<Seq<char>>::empty());
                assert(res.deep_view() =~= trimmed_tags(pieces.deep_view()));
            }
        },
        MetaValue::List(items) => {
            let mut i: usize = 0;
            proof {
                assert(items.deep_view().subrange(0, items.deep_view().len() as int)
                    =~= items.deep_view());
            }
            while i < items.len()
                invariant
                    i <= items.len(),
                    items.deep_view().len() == items.len(),
                    res.deep_view() + string_items(
                        items.deep_view().subrange(i as int, items.deep_view().len() as int),
                    ) =~= string_items(items.deep_view()),
                decreases items.len() - i,
            {
                let ghost rest = items.deep_view().subrange(
                    i as int,
                    items.deep_view().len() as int,
                );
                proof {
                    assert(rest[0] == items.deep_view()[i as int]);
                    assert(rest.subrange(1, rest.len() as int) =~= items.deep_view().subrange(
                        i + 1,
                        items.deep_view().len() as int,
                    ));
                }
                let ghost old_res = res.deep_view();
                match &items[i] {
                    MetaScalar::Str(s) => {
                        res.push(s.clone());
                        proof {
                            assert(res.deep_view() =~= old_res + seq![s@]);
                        }
                    },
                    _ => {},
                }
                i = i + 1;
            }
            proof {
                assert(items.deep_view().subrange(
                    items.deep_view().len() as int,
                    items.deep_view().len() as int,
                ) =~= Seq::<MetaScalarView>::empty());
                assert(res.deep_view() =~= string_items(items.deep_view()));
            }
        },
        _ => {
            proof {
                assert(res.deep_view() =~= tags_of_value(v@));
            }
        },
    }
    res
}

/// The first string element of a sequence value.
pub open spec fn first_string_item(xs: Seq<MetaScalarView>) -> Option<Seq<char>>
    decreases xs.len(),
{
    if xs.len() == 0 {
        None
    } else {
        match xs[0] {
            MetaScalarView::Str(s) => Some(s),
            _ => first_string_item(xs.subrange(1, xs.len() as int)),
        }
    }
}

/// The image address carried by one metadata value.
pub open spec fn url_of_value(v: MetaValView) -> Option<Seq<char>> {
    match v {
        MetaValView::Str(s) => Some(s),
        MetaValView::List(items) => first_string_item(items),
        _ => None,
    }
}

/// The image address found under one key of the metadata.
pub open spec fn url_at(m: Seq<(Seq<char>, MetaValView)>, k: Seq<char>) -> Option<Seq<char>> {
    match lookup(m, k) {
        Some(v) => url_of_value(v),
        None => None,
    }
}

/// The document's image address: the keys `image`, `images`, `picture`,
/// `pictures` are scanned in that order, and the first that yields an
/// address wins.
pub open spec fn image_url_of(m: Seq<(Seq<char>, MetaValView)>) -> Option<Seq<char>> {
    if url_at(m, "image"@) is Some {
        url_at(m, "image"@)
    } else if url_at(m, "images"@) is Some {
        url_at(m, "images"@)
    } else if url_at(m, "picture"@) is Some {
        url_at(m, "picture"@)
    } else {
        url_at(m, "pictures"@)
    }
}

/// The image address carried by one value.
fn value_url(v: &MetaValue) -> (r: Option<String>)
    ensures
        match r {
            Some(u) => url_of_value(v@) == Some(u@),
            None => url_of_value(v@) is None,
        },
{
    match v {
        MetaValue::Str(s) => Some(s.clone()),
        MetaValue::List(items) => {
            let mut i: usize = 0;
            proof {
                assert(items.deep_view().subrange(0, items.deep_view().len() as int)
                    =~= items.deep_view());
                assert(v@ == MetaValView::List(items.deep_view()));
            }
            while i < items.len()
                invariant
                    i <= items.len(),
                    items.deep_view().len() == items.len(),
                    v@ == MetaValView::List(items.deep_view()),
                    first_string_item(items.deep_view()) == first_string_item(
                        items.deep_view().subrange(i as int, items.deep_view().len() as int),
                    ),
                decreases items.len() - i,
            {
                let ghost rest = items.deep_view().subrange(
                    i as int,
                    items.deep_view().len() as int,
                );
                proof {
                    assert(rest[0] == items.deep_view()[i as int]);
                    assert(rest.subrange(1, rest.len() as int) =~= items.deep_view().subrange(
                        i + 1,
                        items.deep_view().len() as int,
                    ));
                }
                proof {
                    assert(items.deep_view()[i as int] == items@[i as int].deep_view());
                }
                match &items[i] {
                    MetaScalar::Str(s) => {
                        proof {
                            assert(items.deep_view()[i as int] == MetaScalarView::Str(s@));
                            assert(rest[0] == MetaScalarView::Str(s@));
                            assert(first_string_item(rest) == Some(s@));
                            assert(url_of_value(v@) == Some(s@));
                        }
                        return Some(s.clone());
                    },
                    _ => {},
                }
                i = i + 1;
            }
            proof {
                assert(items.deep_view().subrange(
                    items.deep_view().len() as int,
                    items.deep_view().len() as int,
                ) =~= Seq::<MetaScalarView>::empty());
            }
            None
        },
        _ => None,
    }
}

impl Metadata {
    /// The document's tags, from the keys `tags` or `tag`.
    pub fn tags(&self) -> (r: Vec<String>)
        ensures
            r.deep_view() == tags_of(self@),
    {
        match self.get("tags") {
            Some(v) => value_tags(v),
            None => match self.get("tag") {
                Some(v) => value_tags(v),
                None => {
                    let r: Vec<String> = Vec::new();
                    proof {
                        assert(r.deep_view() =~= Seq::<Seq<char>>::empty());
                    }
                    r
                },
            },
        }
    }

    /// The document's image address, from the first matching image key.
    pub fn image_url(&self) -> (r: Option<String>)
        ensures
            match r {
                Some(u) => image_url_of(self@) == Some(u@),
                None => image_url_of(self@) is None,
            },
    {
        if let Some(v) = self.get("image") {
            if let Some(u) = value_url(v) {
                return Some(u);
            }
        }
        if let Some(v) = self.get("images") {
            if let Some(u) = value_url(v) {
                return Some(u);
            }
        }
        if let Some(v) = self.get("picture") {
            if let Some(u) = value_url(v) {
                return Some(u);
            }
        }
        if let Some(v) = self.get("pictures") {
            if let Some(u) = value_url(v) {
                return Some(u);
            }
        }
        None
    }
}

/// Index of the first line at or after `i` that trims to the frontmatter
/// delimiter, or `lines.len()` when there is none.
pub open spec fn close_index(lines: Seq<Seq<char>>, i: int) -> int
    decreases lines.len() - i,
{
    if i < 0 || i >= lines.len() {
        lines.len() as int
    } else if trim_of(lines[i]) == "---"@ {
        i
    } else {
        close_index(lines, i + 1)
    }
}

/// The collected lines joined with line feeds.
pub open spec fn join_nl(xs: Seq<Seq<char>>) -> Seq<char>
    decreases xs.len(),
{
    if xs.len() == 0 {
        Seq::empty()
    } else if xs.len() == 1 {
        xs[0]
    } else {
        xs[0] + seq!['\n'] + join_nl(xs.subrange(1, xs.len() as int))
    }
}

proof fn lemma_join_nl_push(xs: Seq<Seq<char>>, x: Seq<char>)
    ensures
        join_nl(xs.push(x)) == if xs.len() == 0 {
            x
        } else {
            join_nl(xs) + seq!['\n'] + x
        },
    decreases xs.len(),
{
    let ys = xs.push(x);
    if xs.len() == 0 {
        assert(ys[0] == x);
    } else {
        assert(ys.subrange(1, ys.len() as int) =~= xs.subrange(1, xs.len() as int).push(x));
        lemma_join_nl_push(xs.subrange(1, xs.len() as int), x);
        if xs.len() == 1 {
            assert(xs.subrange(1, 1) =~= Seq::<Seq<char>>::empty());
            assert(join_nl(ys) == ys[0] + seq!['\n'] + x);
        } else {
            assert(ys[0] + seq!['\n'] + (join_nl(xs.subrange(1, xs.len() as int)) + seq!['\n']
                + x) =~= (xs[0] + seq!['\n'] + join_nl(xs.subrange(1, xs.len() as int)))
                + seq!['\n'] + x);
        }
    }
}

/// How many collected lines a frontmatter block may hold.
pub open spec fn line_budget() -> int {
    30
}

/// The frontmatter block of a document's lines: present when the first
/// line trims to `---`, a later line closes the block, and no more than
/// the budget of lines lies between; the block is those lines joined with
/// line feeds.
pub open spec fn frontmatter_block_of(lines: Seq<Seq<char>>) -> Option<Seq<char>> {
    if lines.len() == 0 || trim_of(lines[0]) != "---"@ {
        None
    } else {
        let e = close_index(lines, 1);
        if e >= lines.len() {
            None
        } else if e - 1 > line_budget() {
            None
        } else {
            Some(join_nl(lines.subrange(1, e)))
        }
    }
}

/// Extracts the frontmatter block from a document's lines.
pub fn extract_yaml_from_lines(lines: &Vec<String>) -> (r: Option<String>)
    ensures
        match r {
            Some(y) => frontmatter_block_of(lines.deep_view()) == Some(y@),
            None => frontmatter_block_of(lines.deep_view()) is None,
        },
{
    let ghost deep = lines.deep_view();
    let n = lines.len();
    if n == 0 {
        return None;
    }
    proof {
        reveal_strlit("---");
        assert(deep[0] == lines@[0]@);
    }
    let t0 = trim(lines[0].as_str());
    if !str_eq(t0, "---") {
        return None;
    }
    let mut j: usize = 1;
    let mut found = false;
    while j < n && !found
        invariant
            1 <= j <= n,
            n == lines.len(),
            deep == lines.deep_view(),
            deep.len() == n,
            found ==> j < n && close_index(deep, 1) == j,
            !found ==> close_index(deep, 1) == close_index(deep, j as int),
        decreases n - j, if found { 0int } else { 1int },
    {
        proof {
            reveal_strlit("---");
            assert(deep[j as int] == lines@[j as int]@);
        }
        if str_eq(trim(lines[j].as_str()), "---") {
            found = true;
        } else {
            j = j + 1;
        }
    }
    if !found {
        proof {
            assert(close_index(deep, n as int) == n);
        }
        return None;
    }
    let e = j;
    if e - 1 > 30 {
        return None;
    }
    let mut out = String::new();
    let mut k: usize = 1;
    proof {
        assert(deep.subrange(1, 1) =~= Seq::<Seq<char>>::empty());
        assert(out@ =~= join_nl(deep.subrange(1, 1)));
    }
    while k < e
        invariant
            1 <= k <= e,
            e < n,
            n == lines.len(),
            deep == lines.deep_view(),
            deep.len() == n,
            out@ == join_nl(deep.subrange(1, k as int)),
            k > 1 <==> deep.subrange(1, k as int).len() > 0,
        decreases e - k,
    {
        if k > 1 {
            out.append("\n");
        }
        out.append(lines[k].as_str());
        proof {
            reveal_strlit("\n");
            assert(deep[k as int] == lines@[k as int]@);
            assert(deep.subrange(1, k + 1) =~= deep.subrange(1, k as int).push(
                deep[k as int],
            ));
            lemma_join_nl_push(deep.subrange(1, k as int), deep[k as int]);
            assert(out@ =~= join_nl(deep.subrange(1, k + 1)));
        }
        k = k + 1;
    }
    Some(out)
}

/// What the YAML deserializer makes of a frontmatter block: the entries of
/// the string-keyed mapping it describes, in key order, with each value
/// flattened to the library's value model — or nothing, when the block is
/// not such a mapping.
pub uninterp spec fn parsed_frontmatter(s: Seq<char>) -> Option<
    Seq<(Seq<char>, MetaValView)>,
>;

#[verifier::external_type_specification]
#[verifier::external_body]
pub struct ExYamlValue(serde_yaml::Value);

/// Relies on serde_yaml::Value's accessors to flatten one element of a
/// YAML sequence: a string, an integer number or a boolean is kept,
/// anything else becomes opaque.  Conversion part of `parse_yaml_map`,
/// called from the bodies of these wrappers alone.
#[verifier::external_body]
fn meta_scalar_of_yaml(v: &serde_yaml::Value) -> MetaScalar {
    if let Some(t) = v.as_str() {
        MetaScalar::Str(t.to_string())
    } else if let Some(i) = v.as_i64() {
        MetaScalar::Int(i)
    } else if let Some(b) = v.as_bool() {
        MetaScalar::Bool(b)
    } else {
        MetaScalar::Other
    }
}

/// Relies on serde_yaml::Value's accessors to flatten one YAML value:
/// strings, integer numbers and booleans are kept, a sequence keeps its
/// scalar elements, anything else becomes opaque.  Conversion half of
/// `parse_yaml_map`, called from its body alone.
#[verifier::external_body]
fn meta_value_of_yaml(v: &serde_yaml::Value) -> MetaValue {
    if let Some(t) = v.as_str() {
        MetaValue::Str(t.to_string())
    } else if let Some(i) = v.as_i64() {
        MetaValue::Int(i)
    } else if let Some(b) = v.as_bool() {
        MetaValue::Bool(b)
    } else if let Some(xs) = v.as_sequence() {
        MetaValue::List(xs.iter().map(meta_scalar_of_yaml).collect())
    } else {
        MetaValue::Other
    }
}

/// Relies on serde_yaml::from_str, deserializing into a string-keyed
/// ordered map: yields the mapping's entries in key order, or nothing when
/// the text is not such a mapping.
#[verifier::external_body]
fn parse_yaml_map(s: &str) -> (r: Option<Metadata>)
    ensures
        match r {
            Some(m) => parsed_frontmatter(s@) == Some(m@),
            None => parsed_frontmatter(s@) is None,
        },
{
    let parsed: Result<std::collections::BTreeMap<String, serde_yaml::Value>, _> =
        serde_yaml::from_str(s);
    match parsed {
        Ok(m) => Some(
            Metadata {
                entries: m.into_iter().map(|(k, v)| (k, meta_value_of_yaml(&v))).collect(),
            },
        ),
        Err(_) => None,
    }
}

/// What a frontmatter block yields: nothing for blank text, else whatever
/// the deserializer makes of it.
pub open spec fn parsed_block_of(y: Seq<char>) -> Option<Seq<(Seq<char>, MetaValView)>> {
    if trim_of(y).len() == 0 {
        None
    } else {
        parsed_frontmatter(y)
    }
}

/// Parses a frontmatter block into metadata; blank or malformed text
/// yields nothing.
pub fn parse_yaml_content(y: &str) -> (r: Option<Metadata>)
    ensures
        match r {
            Some(m) => parsed_block_of(y@) == Some(m@),
            None => parsed_block_of(y@) is None,
        },
{
    let t = trim(y);
    if t.unicode_len() == 0 {
        None
    } else {
        parse_yaml_map(y)
    }
}

/// The metadata a document's lines carry: the parsed frontmatter block,
/// or empty metadata when there is no block or it does not parse.
pub open spec fn metadata_of_lines(lines: Seq<Seq<char>>) -> Seq<(Seq<char>, MetaValView)> {
    match frontmatter_block_of(lines) {
        Some(y) => match parsed_block_of(y) {
            Some(m) => m,
            None => Seq::empty(),
        },
        None => Seq::empty(),
    }
}

/// The metadata a document's text carries.
pub open spec fn metadata_of_text(s: Seq<char>) -> Seq<(Seq<char>, MetaValView)> {
    metadata_of_lines(lines_of(s))
}

/// Extracts and parses the metadata of a document given as lines; a
/// missing or malformed frontmatter block is absorbed into empty metadata.
pub fn extract_and_parse_metadata(lines: &Vec<String>) -> (r: Metadata)
    ensures
        r@ == metadata_of_lines(lines.deep_view()),
{
    match extract_yaml_from_lines(lines) {
        Some(y) => match parse_yaml_content(y.as_str()) {
            Some(m) => m,
            None => Metadata::empty(),
        },
        None => Metadata::empty(),
    }
}

} // verus!
