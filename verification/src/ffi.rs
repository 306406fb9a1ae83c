//! Flat records for marshalling across a language boundary: simplified
//! error and data shapes re-derived from the core types on every call.

use vstd::prelude::*;
use crate::entry::RecipeEntryError;
use crate::fetch::FetchError;
use crate::metadata::{
    Metadata, MetaValView, MetaScalarView, MetaValue, MetaScalar, title_of, servings_of,
    tags_of, image_url_of,
};
use crate::search::{SearchError, lemma_multisets_by_remove};
use crate::step_images::StepImageCollection;
use crate::tree::{RecipeTree, TreeError};

verus! {

/// A flat error: one shape for every failure, with a message.
#[derive(Debug, Clone)]
pub enum CooklangError {
    NotFound { message: String },
    IoError { message: String },
    ParseError { message: String },
    InvalidPath { message: String },
    SearchError { message: String },
    TreeError { message: String },
}

/// The message a recipe-entry error carries.
pub open spec fn entry_error_message(e: RecipeEntryError) -> Seq<char> {
    match e {
        RecipeEntryError::IoError(m) => "Failed to read recipe file: "@ + m@,
        RecipeEntryError::InvalidPath(p) => "Failed to get file stem from path: "@ + p@,
        RecipeEntryError::ParseError(m) => "Failed to parse recipe: "@ + m@,
        RecipeEntryError::MetadataError(m) => "Failed to parse recipe metadata: "@ + m@,
    }
}

/// Prefixes `tail` with a literal, as the error messages do.
fn prefixed(head: &str, tail: &str) -> (r: String)
    ensures
        r@ == head@ + tail@,
{
    let mut out = head.to_owned();
    out.append(tail);
    out
}

impl RecipeEntryError {
    /// The error rendered as text.
    pub fn message(&self) -> (r: String)
        ensures
            r@ == entry_error_message(*self),
    {
        match self {
            RecipeEntryError::IoError(m) => prefixed("Failed to read recipe file: ", m.as_str()),
            RecipeEntryError::InvalidPath(p) => prefixed(
                "Failed to get file stem from path: ",
                p.as_str(),
            ),
            RecipeEntryError::ParseError(m) => prefixed(
                "Failed to parse recipe: ",
                m.as_str(),
            ),
            RecipeEntryError::MetadataError(m) => prefixed(
                "Failed to parse recipe metadata: ",
                m.as_str(),
            ),
        }
    }
}

impl CooklangError {
    /// The flat form of a recipe-entry error.
    pub fn from_entry_error(e: RecipeEntryError) -> (r: CooklangError)
        ensures
            match e {
                RecipeEntryError::IoError(m) => (r matches CooklangError::IoError {
                    message,
                } && message@ == m@),
                RecipeEntryError::InvalidPath(p) => (r matches CooklangError::InvalidPath {
                    message,
                } && message@ == p@),
                RecipeEntryError::ParseError(m) => (r matches CooklangError::ParseError {
                    message,
                } && message@ == m@),
                RecipeEntryError::MetadataError(m) => (r matches CooklangError::ParseError {
                    message,
                } && message@ == m@),
            },
    {
        match e {
            RecipeEntryError::IoError(m) => CooklangError::IoError { message: m },
            RecipeEntryError::InvalidPath(p) => CooklangError::InvalidPath { message: p },
            RecipeEntryError::ParseError(m) => CooklangError::ParseError { message: m },
            RecipeEntryError::MetadataError(m) => CooklangError::ParseError { message: m },
        }
    }

    /// The flat form of a fetch error.
    pub fn from_fetch_error(e: FetchError) -> (r: CooklangError)
        ensures
            match e {
                FetchError::IoError(m) => (r matches CooklangError::IoError { message }
                    && message@ == m@),
                FetchError::RecipeEntryError(_) => true,
                FetchError::InvalidPath(p) => (r matches CooklangError::NotFound { message }
                    && message@ == "Recipe not found: "@ + p@),
            },
    {
        match e {
            FetchError::IoError(m) => CooklangError::IoError { message: m },
            FetchError::RecipeEntryError(e2) => CooklangError::from_entry_error(e2),
            FetchError::InvalidPath(p) => CooklangError::NotFound {
                message: prefixed("Recipe not found: ", p.as_str()),
            },
        }
    }

    /// The flat form of a search error.
    pub fn from_search_error(e: SearchError) -> (r: CooklangError)
        ensures
            r is SearchError,
    {
        match e {
            SearchError::GlobError(m) => CooklangError::SearchError {
                message: prefixed("Failed to read directory: ", m.as_str()),
            },
            SearchError::PatternError(m) => CooklangError::SearchError {
                message: prefixed("Failed to create glob pattern: ", m.as_str()),
            },
            SearchError::RecipeEntryError(e2) => CooklangError::SearchError {
                message: prefixed("Failed to process recipe: ", e2.message().as_str()),
            },
            SearchError::IoError(m) => CooklangError::SearchError {
                message: prefixed("Failed to read file: ", m.as_str()),
            },
        }
    }

    /// The flat form of a tree error.
    pub fn from_tree_error(e: TreeError) -> (r: CooklangError)
        ensures
            r is TreeError,
    {
        match e {
            TreeError::DirectoryNotFound(m) => CooklangError::TreeError {
                message: prefixed("Directory does not exist: ", m.as_str()),
            },
            TreeError::NotADirectory(m) => CooklangError::TreeError {
                message: prefixed("Path is not a directory: ", m.as_str()),
            },
            TreeError::GlobError(m) => CooklangError::TreeError {
                message: prefixed("Failed to read directory: ", m.as_str()),
            },
            TreeError::PatternError(m) => CooklangError::TreeError {
                message: prefixed("Failed to create glob pattern: ", m.as_str()),
            },
            TreeError::RecipeEntryError(e2) => CooklangError::TreeError {
                message: prefixed("Failed to process recipe: ", e2.message().as_str()),
            },
            TreeError::StripPrefixError(m) => CooklangError::TreeError {
                message: prefixed("Failed to strip prefix from path: ", m.as_str()),
            },
        }
    }
}

/// A key/value pair of rendered metadata.
#[derive(Debug, Clone)]
pub struct MetadataEntry {
    pub key: String,
    pub value: String,
}

/// One step image, addressed the public way: section zero is the linear
/// form, sections and steps count from one.
#[derive(Debug, Clone)]
pub struct StepImageEntry {
    pub section: u32,
    pub step: u32,
    pub image_path: String,
}

/// All step images of a recipe, flattened and ordered.
#[derive(Debug, Clone)]
pub struct FfiStepImages {
    pub images: Vec<StepImageEntry>,
    pub count: u32,
}

/// The public section number of an internal zero-based one.
pub open spec fn public_section(s: int) -> int {
    if s == 0 {
        0
    } else {
        s + 1
    }
}

/// Saturation at the largest value the flat form can carry.
pub open spec fn sat32(x: int) -> int {
    if x > u32::MAX as int {
        u32::MAX as int
    } else {
        x
    }
}

/// The flat form of one collection entry: public section and one-based
/// step, both saturated.
pub open spec fn flat_entry(t: (int, int, Seq<char>)) -> (int, int, Seq<char>) {
    (sat32(public_section(t.0)), sat32(t.1 + 1), t.2)
}

/// The view of one flattened step image.
pub open spec fn step_entry_view(e: StepImageEntry) -> (int, int, Seq<char>) {
    (e.section as int, e.step as int, e.image_path@)
}

/// The views of flattened step images.
pub open spec fn step_entry_views(es: Seq<StepImageEntry>) -> Seq<(int, int, Seq<char>)> {
    es.map_values(|e: StepImageEntry| step_entry_view(e))
}

/// The public form of the collection's entries, in collection order.
pub open spec fn public_entries(s: Seq<(int, int, Seq<char>)>) -> Seq<(int, int, Seq<char>)> {
    s.map_values(|t: (int, int, Seq<char>)| (public_section(t.0), t.1 + 1, t.2))
}

/// The order on flattened step images: by section, then step.
pub open spec fn step_entry_le(a: (int, int, Seq<char>), b: (int, int, Seq<char>)) -> bool {
    a.0 < b.0 || (a.0 == b.0 && a.1 <= b.1)
}

/// Compares two flattened entries by section, then step.
fn step_entry_le_exec(a: &StepImageEntry, b: &StepImageEntry) -> (r: bool)
    ensures
        r == step_entry_le(step_entry_view(*a), step_entry_view(*b)),
{
    a.section < b.section || (a.section == b.section && a.step <= b.step)
}

impl FfiStepImages {
    /// Flattens a collection into one-based entries, sorted by section
    /// and step.  Sections and steps beyond the range of the flat form
    /// are saturated at its largest value.
    pub fn of_collection(c: &StepImageCollection) -> (r: FfiStepImages)
        ensures
            r.count as int == sat32(r.images@.len() as int),
            step_entry_views(r.images@).to_multiset() == c@.map_values(
                |t: (int, int, Seq<char>)| flat_entry(t),
            ).to_multiset(),
            forall|a: int, b: int|
                0 <= a < b < r.images@.len() ==> step_entry_le(
                    step_entry_view(#[trigger] r.images@[a]),
                    step_entry_view(#[trigger] r.images@[b]),
                ),
    {
        let ghost flats = c@.map_values(|t: (int, int, Seq<char>)| flat_entry(t));
        let entries = c.entries();
        let mut images: Vec<StepImageEntry> = Vec::new();
        let mut i: usize = 0;
        proof {
            assert(step_entry_views(images@) =~= flats.subrange(0, 0));
        }
        while i < entries.len()
            invariant
                i <= entries.len(),
                entries@.map_values(
                    |t: (usize, usize, String)| (t.0 as int, t.1 as int, t.2@),
                ) == c@,
                c@.len() == entries@.len(),
                flats == c@.map_values(|t: (int, int, Seq<char>)| flat_entry(t)),
                step_entry_views(images@) =~= flats.subrange(0, i as int),
            decreases entries.len() - i,
        {
            proof {
                assert(c@[i as int] == (
                    entries@[i as int].0 as int,
                    entries@[i as int].1 as int,
                    entries@[i as int].2@,
                ));
                assert(flats[i as int] == flat_entry(c@[i as int]));
            }
            let (sec, st, p) = (entries[i].0, entries[i].1, entries[i].2.clone());
            let big: usize = u32::MAX as usize;
            let section: u32 = if sec == 0 {
                0
            } else if sec >= big {
                u32::MAX
            } else {
                (sec + 1) as u32
            };
            let step: u32 = if st >= big {
                u32::MAX
            } else {
                (st + 1) as u32
            };
            let ghost before = step_entry_views(images@);
            images.push(StepImageEntry { section, step, image_path: p });
            proof {
                assert(step_entry_views(images@) =~= before.push(
                    (section as int, step as int, p@),
                ));
                assert((section as int, step as int, p@) == flats[i as int]);
                assert(step_entry_views(images@) =~= flats.subrange(0, i + 1));
            }
            i = i + 1;
        }
        proof {
            assert(flats.subrange(0, flats.len() as int) =~= flats);
        }
        sort_step_entries(&mut images);
        let count: u32 = if images.len() >= u32::MAX as usize {
            u32::MAX
        } else {
            images.len() as u32
        };
        FfiStepImages { count, images }
    }
}

/// Sorts flattened step images by section, then step.
fn sort_step_entries(v: &mut Vec<StepImageEntry>)
    ensures
        final(v)@.len() == old(v)@.len(),
        step_entry_views(final(v)@).to_multiset() == step_entry_views(old(v)@).to_multiset(),
        forall|a: int, b: int|
            0 <= a < b < final(v)@.len() ==> step_entry_le(
                step_entry_view(#[trigger] final(v)@[a]),
                step_entry_view(#[trigger] final(v)@[b]),
            ),
{
    let ghost orig = step_entry_views(v@);
    let n = v.len();
    if n == 0 {
        return ;
    }
    let mut i: usize = 1;
    while i < n
        invariant
            1 <= i <= n,
            n == v@.len(),
            step_entry_views(v@).to_multiset() == orig.to_multiset(),
            forall|a: int, b: int|
                0 <= a < b < i ==> step_entry_le(
                    step_entry_view(#[trigger] v@[a]),
                    step_entry_view(#[trigger] v@[b]),
                ),
        decreases n - i,
    {
        let mut j: usize = i;
        while j > 0 && !step_entry_le_exec(&v[j - 1], &v[j])
            invariant
                0 <= j <= i < n,
                n == v@.len(),
                step_entry_views(v@).to_multiset() == orig.to_multiset(),
                forall|a: int, b: int|
                    0 <= a < b <= i && b != j ==> step_entry_le(
                        step_entry_view(#[trigger] v@[a]),
                        step_entry_view(#[trigger] v@[b]),
                    ),
            decreases j,
        {
            let ghost before = v@;
            let x = v.remove(j);
            v.insert(j - 1, x);
            proof {
                assert(v@ =~= before.update(j - 1, before[j as int]).update(
                    j as int,
                    before[j - 1],
                ));
                assert(step_entry_views(v@) =~= step_entry_views(before).update(
                    j - 1,
                    step_entry_view(before[j as int]),
                ).update(j as int, step_entry_view(before[j - 1])));
                lemma_multisets_by_remove(
                    step_entry_views(before),
                    step_entry_views(v@),
                    j - 1,
                    j as int,
                );
                assert forall|a: int, b: int|
                    0 <= a < b <= i && b != j - 1 implies step_entry_le(
                    step_entry_view(v@[a]),
                    step_entry_view(v@[b]),
                ) by {
                    if a == j - 1 || a == j {
                        if b == j {
                            assert(step_entry_le(
                                step_entry_view(v@[a]),
                                step_entry_view(v@[b]),
                            ));
                        }
                    }
                }
            }
            j = j - 1;
        }
        proof {
            assert forall|a: int, b: int| 0 <= a < b <= i implies step_entry_le(
                step_entry_view(v@[a]),
                step_entry_view(v@[b]),
            ) by {
                if b == j && j > 0 && a < j - 1 {
                }
            }
        }
        i = i + 1;
    }
}

/// A decimal digit as a character.
pub open spec fn dec_digit(d: int) -> char {
    if d == 0 {
        '0'
    } else if d == 1 {
        '1'
    } else if d == 2 {
        '2'
    } else if d == 3 {
        '3'
    } else if d == 4 {
        '4'
    } else if d == 5 {
        '5'
    } else if d == 6 {
        '6'
    } else if d == 7 {
        '7'
    } else if d == 8 {
        '8'
    } else {
        '9'
    }
}

/// A hexadecimal digit as a character.
pub open spec fn hex_digit(d: int) -> char {
    if d < 10 {
        dec_digit(d)
    } else if d == 10 {
        'a'
    } else if d == 11 {
        'b'
    } else if d == 12 {
        'c'
    } else if d == 13 {
        'd'
    } else if d == 14 {
        'e'
    } else {
        'f'
    }
}

/// One character as it stands inside a JSON string literal.
pub open spec fn escaped_char(c: char) -> Seq<char> {
    if c == '"' {
        seq!['\\', '"']
    } else if c == '\\' {
        seq!['\\', '\\']
    } else if c == '\n' {
        seq!['\\', 'n']
    } else if c == '\r' {
        seq!['\\', 'r']
    } else if c == '\t' {
        seq!['\\', 't']
    } else if (c as u32) < 32 {
        seq!['\\', 'u', '0', '0', hex_digit(c as u32 as int / 16), hex_digit(
            c as u32 as int % 16,
        )]
    } else {
        seq![c]
    }
}

/// The characters of `s` from `i` on, escaped for a JSON string literal.
pub open spec fn escaped_from(s: Seq<char>, i: int) -> Seq<char>
    decreases s.len() - i,
{
    if i < 0 || i >= s.len() {
        Seq::empty()
    } else {
        escaped_char(s[i]) + escaped_from(s, i + 1)
    }
}

/// The digits of a non-negative number.
pub open spec fn decimal_nat(n: int) -> Seq<char>
    decreases n,
{
    if n < 10 {
        seq![dec_digit(n)]
    } else {
        decimal_nat(n / 10) + seq![dec_digit(n % 10)]
    }
}

/// A JSON integer.
pub open spec fn json_int(i: int) -> Seq<char> {
    if i < 0 {
        seq!['-'] + decimal_nat(-i)
    } else {
        decimal_nat(i)
    }
}

/// A JSON string literal.
pub open spec fn json_string(s: Seq<char>) -> Seq<char> {
    seq!['"'] + escaped_from(s, 0) + seq!['"']
}

/// A scalar as JSON: a string, an integer, or null for an opaque value.
pub open spec fn json_scalar(v: MetaScalarView) -> Seq<char> {
    match v {
        MetaScalarView::Str(s) => json_string(s),
        MetaScalarView::Int(i) => json_int(i),
        MetaScalarView::Bool(b) => if b {
            "true"@
        } else {
            "false"@
        },
        MetaScalarView::Other => "null"@,
    }
}

/// The comma-separated scalars of a sequence value, from `k` on.
pub open spec fn json_items(items: Seq<MetaScalarView>, k: int) -> Seq<char>
    decreases items.len() - k,
{
    if k < 0 || k >= items.len() {
        Seq::empty()
    } else {
        (if k > 0 {
            seq![',']
        } else {
            Seq::empty()
        }) + json_scalar(items[k]) + json_items(items, k + 1)
    }
}

/// A metadata value as JSON.
pub open spec fn json_value(v: MetaValView) -> Seq<char> {
    match v {
        MetaValView::Str(s) => json_string(s),
        MetaValView::Int(i) => json_int(i),
        MetaValView::Bool(b) => if b {
            "true"@
        } else {
            "false"@
        },
        MetaValView::List(items) => seq!['['] + json_items(items, 0) + seq![']'],
        MetaValView::Other => "null"@,
    }
}

/// The comma-separated `"key": value` pairs of the metadata, from `k` on.
pub open spec fn json_entries(m: Seq<(Seq<char>, MetaValView)>, k: int) -> Seq<char>
    decreases m.len() - k,
{
    if k < 0 || k >= m.len() {
        Seq::empty()
    } else {
        (if k > 0 {
            seq![',']
        } else {
            Seq::empty()
        }) + json_string(m[k].0) + seq![':'] + json_value(m[k].1) + json_entries(m, k + 1)
    }
}

/// The whole metadata as one JSON object.
pub open spec fn json_of(m: Seq<(Seq<char>, MetaValView)>) -> Seq<char> {
    seq!['{'] + json_entries(m, 0) + seq!['}']
}

/// Relies on String::push: appends one character.
#[verifier::external_body]
fn push_char(s: &mut String, c: char)
    ensures
        final(s)@ == old(s)@.push(c),
{
    s.push(c);
}

/// The character of a decimal digit.
fn dec_digit_exec(d: u64) -> (c: char)
    requires
        d < 10,
    ensures
        c == dec_digit(d as int),
{
    match d {
        0 => '0',
        1 => '1',
        2 => '2',
        3 => '3',
        4 => '4',
        5 => '5',
        6 => '6',
        7 => '7',
        8 => '8',
        _ => '9',
    }
}

/// The character of a hexadecimal digit.
fn hex_digit_exec(d: u32) -> (c: char)
    requires
        d < 16,
    ensures
        c == hex_digit(d as int),
{
    match d {
        0 => '0',
        1 => '1',
        2 => '2',
        3 => '3',
        4 => '4',
        5 => '5',
        6 => '6',
        7 => '7',
        8 => '8',
        9 => '9',
        10 => 'a',
        11 => 'b',
        12 => 'c',
        13 => 'd',
        14 => 'e',
        _ => 'f',
    }
}

/// Appends the digits of `n`.
fn push_decimal(out: &mut String, n: u64)
    ensures
        final(out)@ == old(out)@ + decimal_nat(n as int),
    decreases n,
{
    if n < 10 {
        push_char(out, dec_digit_exec(n));
        proof {
            assert(out@ =~= old(out)@ + decimal_nat(n as int));
        }
    } else {
        proof {
            assert(n as int / 10 < n as int) by (nonlinear_arith)
                requires
                    n >= 10,
            ;
        }
        push_decimal(out, n / 10);
        push_char(out, dec_digit_exec(n % 10));
        proof {
            assert(out@ =~= old(out)@ + decimal_nat(n as int));
        }
    }
}

/// Appends a JSON integer.
fn push_json_int(out: &mut String, i: i64)
    ensures
        final(out)@ == old(out)@ + json_int(i as int),
{
    if i >= 0 {
        push_decimal(out, i as u64);
    } else {
        push_char(out, '-');
        let mag: u64 = if i == i64::MIN {
            9223372036854775808u64
        } else {
            (-i) as u64
        };
        let ghost mid = out@;
        push_decimal(out, mag);
        proof {
            assert(mag as int == -(i as int));
            assert(out@ =~= old(out)@ + json_int(i as int));
        }
    }
}

/// Appends a JSON string literal.
fn push_json_string(out: &mut String, s: &str)
    ensures
        final(out)@ == old(out)@ + json_string(s@),
{
    push_char(out, '"');
    let n = s.unicode_len();
    let mut i: usize = 0;
    while i < n
        invariant
            i <= n,
            n == s@.len(),
            out@ + escaped_from(s@, i as int) == old(out)@ + seq!['"'] + escaped_from(s@, 0),
        decreases n - i,
    {
        let c = s.get_char(i);
        let ghost before = out@;
        if c == '"' {
            push_char(out, '\\');
            push_char(out, '"');
        } else if c == '\\' {
            push_char(out, '\\');
            push_char(out, '\\');
        } else if c == '\n' {
            push_char(out, '\\');
            push_char(out, 'n');
        } else if c == '\r' {
            push_char(out, '\\');
            push_char(out, 'r');
        } else if c == '\t' {
            push_char(out, '\\');
            push_char(out, 't');
        } else if (c as u32) < 32 {
            push_char(out, '\\');
            push_char(out, 'u');
            push_char(out, '0');
            push_char(out, '0');
            push_char(out, hex_digit_exec((c as u32) / 16));
            push_char(out, hex_digit_exec((c as u32) % 16));
        } else {
            push_char(out, c);
        }
        proof {
            assert(out@ =~= before + escaped_char(s@[i as int]));
            assert(out@ + escaped_from(s@, i + 1) =~= before + escaped_from(s@, i as int));
            assert(out@ + escaped_from(s@, i + 1) =~= old(out)@ + seq!['"'] + escaped_from(
                s@,
                0,
            ));
        }
        i = i + 1;
    }
    push_char(out, '"');
    proof {
        assert(out@ =~= old(out)@ + json_string(s@));
    }
}

/// Appends a scalar as JSON.
fn push_json_scalar(out: &mut String, v: &MetaScalar)
    ensures
        final(out)@ == old(out)@ + json_scalar(v@),
{
    match v {
        MetaScalar::Str(s) => push_json_string(out, s.as_str()),
        MetaScalar::Int(i) => push_json_int(out, *i),
        MetaScalar::Bool(b) => {
            if *b {
                out.append("true");
            } else {
                out.append("false");
            }
            proof {
                reveal_strlit("true");
                reveal_strlit("false");
                assert(out@ =~= old(out)@ + json_scalar(v@));
            }
        },
        MetaScalar::Other => {
            out.append("null");
            proof {
                reveal_strlit("null");
                assert(out@ =~= old(out)@ + json_scalar(v@));
            }
        },
    }
}

/// Appends a metadata value as JSON.
fn push_json_value(out: &mut String, v: &MetaValue)
    ensures
        final(out)@ == old(out)@ + json_value(v@),
{
    match v {
        MetaValue::Str(s) => push_json_string(out, s.as_str()),
        MetaValue::Int(i) => push_json_int(out, *i),
        MetaValue::Bool(b) => {
            if *b {
                out.append("true");
            } else {
                out.append("false");
            }
            proof {
                reveal_strlit("true");
                reveal_strlit("false");
                assert(out@ =~= old(out)@ + json_value(v@));
            }
        },
        MetaValue::List(items) => {
            push_char(out, '[');
            let ghost iv = items.deep_view();
            let mut k: usize = 0;
            while k < items.len()
                invariant
                    k <= items.len(),
                    iv == items.deep_view(),
                    iv.len() == items.len(),
                    out@ + json_items(iv, k as int) == old(out)@ + seq!['['] + json_items(
                        iv,
                        0,
                    ),
                decreases items.len() - k,
            {
                proof {
                    assert(iv[k as int] == items@[k as int].deep_view());
                }
                let ghost before = out@;
                if k > 0 {
                    push_char(out, ',');
                }
                push_json_scalar(out, &items[k]);
                proof {
                    if k > 0 {
                        assert(out@ =~= before + seq![','] + json_scalar(iv[k as int]));
                        assert(out@ =~= before + (seq![','] + json_scalar(iv[k as int])));
                    } else {
                        assert(out@ =~= before + (Seq::<char>::empty() + json_scalar(
                            iv[k as int],
                        )));
                    }
                    assert(out@ + json_items(iv, k + 1) =~= before + json_items(
                        iv,
                        k as int,
                    ));
                    assert(out@ + json_items(iv, k + 1) =~= old(out)@ + seq!['[']
                        + json_items(iv, 0));
                }
                k = k + 1;
            }
            push_char(out, ']');
            proof {
                assert(out@ =~= old(out)@ + json_value(v@));
            }
        },
        MetaValue::Other => {
            out.append("null");
            proof {
                reveal_strlit("null");
                assert(out@ =~= old(out)@ + json_value(v@));
            }
        },
    }
}

/// Renders the metadata as one JSON object.
pub fn metadata_to_json(m: &Metadata) -> (r: String)
    ensures
        r@ == json_of(m@),
{
    let mut out = String::new();
    push_char(&mut out, '{');
    let entries = m.entries();
    let ghost mv = m@;
    let mut k: usize = 0;
    proof {
        assert(out@ =~= seq!['{']);
    }
    while k < entries.len()
        invariant
            k <= entries.len(),
            entries@.map_values(|p: (String, MetaValue)| (p.0@, p.1@)) == mv,
            mv.len() == entries@.len(),
            out@ + json_entries(mv, k as int) == seq!['{'] + json_entries(mv, 0),
        decreases entries.len() - k,
    {
        proof {
            assert(mv[k as int] == (entries@[k as int].0@, entries@[k as int].1@));
        }
        let ghost before = out@;
        if k > 0 {
            push_char(&mut out, ',');
        }
        push_json_string(&mut out, entries[k].0.as_str());
        push_char(&mut out, ':');
        push_json_value(&mut out, &entries[k].1);
        proof {
            let piece = (if k > 0 {
                seq![',']
            } else {
                Seq::<char>::empty()
            }) + json_string(mv[k as int].0) + seq![':'] + json_value(mv[k as int].1);
            assert(out@ =~= before + piece);
            assert(out@ + json_entries(mv, k + 1) =~= before + json_entries(mv, k as int));
            assert(out@ + json_entries(mv, k + 1) =~= seq!['{'] + json_entries(mv, 0));
        }
        k = k + 1;
    }
    push_char(&mut out, '}');
    proof {
        assert(out@ =~= json_of(mv));
    }
    out
}

/// Flat metadata: the common projections, with the whole mapping
/// rendered as JSON for anything else.
#[derive(Debug, Clone)]
pub struct FfiMetadata {
    pub title: Option<String>,
    pub servings: Option<i64>,
    pub tags: Vec<String>,
    pub image_url: Option<String>,
    pub raw_json: String,
}

impl FfiMetadata {
    /// Flattens metadata into its common projections and a JSON
    /// rendering.
    pub fn of_metadata(m: &Metadata) -> (r: FfiMetadata)
        ensures
            match r.title {
                Some(t) => title_of(m@) == Some(t@),
                None => title_of(m@) is None,
            },
            match r.servings {
                Some(s) => servings_of(m@) == Some(s as int),
                None => servings_of(m@) is None,
            },
            r.tags.deep_view() == tags_of(m@),
            match r.image_url {
                Some(u) => image_url_of(m@) == Some(u@),
                None => image_url_of(m@) is None,
            },
            r.raw_json@ == json_of(m@),
    {
        let title = match m.title() {
            Some(t) => Some(t.to_owned()),
            None => None,
        };
        let servings = m.servings();
        let tags = m.tags();
        let image_url = m.image_url();
        let raw_json = metadata_to_json(m);
        FfiMetadata { title, servings, tags, image_url, raw_json }
    }
}

/// A flat view of one tree node: its names, whether it holds a recipe,
/// and its children's names.
#[derive(Debug, Clone)]
pub struct FfiTreeNode {
    pub name: String,
    pub path: String,
    pub has_recipe: bool,
    pub children: Vec<String>,
}

/// Flattens one node.
pub fn tree_to_node(tree: &RecipeTree) -> (r: FfiTreeNode)
    ensures
        r.name@ == tree.name@,
        r.path@ == tree.path@,
        r.has_recipe == (tree.recipe is Some),
        r.children.deep_view() == tree.children@.map_values(
            |c: (String, RecipeTree)| c.0@,
        ),
{
    let mut children: Vec<String> = Vec::new();
    let mut i: usize = 0;
    while i < tree.children.len()
        invariant
            i <= tree.children@.len(),
            children.deep_view() =~= tree.children@.map_values(
                |c: (String, RecipeTree)| c.0@,
            ).subrange(0, i as int),
        decreases tree.children@.len() - i,
    {
        let ghost old_c = children.deep_view();
        children.push(tree.children[i].0.clone());
        proof {
            let mapped = tree.children@.map_values(|c: (String, RecipeTree)| c.0@);
            assert(mapped[i as int] == tree.children@[i as int].0@);
            assert(children.deep_view() =~= old_c.push(tree.children@[i as int].0@));
            assert(mapped.subrange(0, i + 1) =~= mapped.subrange(0, i as int).push(
                mapped[i as int],
            ));
            assert(children.deep_view() =~= mapped.subrange(0, i + 1));
        }
        i = i + 1;
    }
    proof {
        let mapped = tree.children@.map_values(|c: (String, RecipeTree)| c.0@);
        assert(mapped.subrange(0, mapped.len() as int) =~= mapped);
    }
    FfiTreeNode {
        name: tree.name.clone(),
        path: tree.path.clone(),
        has_recipe: tree.recipe.is_some(),
        children,
    }
}

/// The flat view of one tree node: its names, whether it holds a
/// recipe, and its children's names.
pub open spec fn tree_node_view(t: RecipeTree) -> (Seq<char>, Seq<char>, bool, Seq<Seq<char>>) {
    (
        t.name@,
        t.path@,
        t.recipe is Some,
        t.children@.map_values(|c: (String, RecipeTree)| c.0@),
    )
}

/// The flat view of one flattened record.
pub open spec fn ffi_node_view(n: FfiTreeNode) -> (Seq<char>, Seq<char>, bool, Seq<Seq<char>>) {
    (n.name@, n.path@, n.has_recipe, n.children.deep_view())
}

/// All the tree's nodes in pre-order: the node itself, then its
/// children's subtrees in order.
pub open spec fn flat_nodes(t: RecipeTree) -> Seq<(Seq<char>, Seq<char>, bool, Seq<Seq<char>>)>
    decreases t, t.children@.len() + 1int,
{
    seq![tree_node_view(t)] + flat_nodes_from(t, 0)
}

/// The subtrees of the children from `i` on, flattened in pre-order.
pub open spec fn flat_nodes_from(t: RecipeTree, i: int) -> Seq<
    (Seq<char>, Seq<char>, bool, Seq<Seq<char>>),
>
    decreases t, t.children@.len() - i,
{
    if i < 0 || i >= t.children@.len() {
        Seq::empty()
    } else {
        flat_nodes(t.children@[i].1) + flat_nodes_from(t, i + 1)
    }
}

/// Flattens the whole tree in pre-order, parents before children.
pub fn collect_nodes(tree: &RecipeTree, out: &mut Vec<FfiTreeNode>)
    ensures
        final(out)@.map_values(|n: FfiTreeNode| ffi_node_view(n)) == old(out)@.map_values(
            |n: FfiTreeNode| ffi_node_view(n),
        ) + flat_nodes(*tree),
    decreases tree,
{
    let ghost base = out@.map_values(|n: FfiTreeNode| ffi_node_view(n));
    let node = tree_to_node(tree);
    proof {
        assert(ffi_node_view(node) == tree_node_view(*tree));
    }
    out.push(node);
    proof {
        assert(out@.map_values(|n: FfiTreeNode| ffi_node_view(n)) =~= base.push(
            tree_node_view(*tree),
        ));
        assert(out@.map_values(|n: FfiTreeNode| ffi_node_view(n)) + flat_nodes_from(
            *tree,
            0,
        ) =~= base + flat_nodes(*tree));
    }
    let mut i: usize = 0;
    while i < tree.children.len()
        invariant
            i <= tree.children@.len(),
            out@.map_values(|n: FfiTreeNode| ffi_node_view(n)) + flat_nodes_from(
                *tree,
                i as int,
            ) =~= base + flat_nodes(*tree),
        decreases tree.children@.len() - i,
    {
        let ghost cur = out@.map_values(|n: FfiTreeNode| ffi_node_view(n));
        collect_nodes(&tree.children[i].1, out);
        proof {
            assert(out@.map_values(|n: FfiTreeNode| ffi_node_view(n)) =~= cur + flat_nodes(
                tree.children@[i as int].1,
            ));
            assert(out@.map_values(|n: FfiTreeNode| ffi_node_view(n)) + flat_nodes_from(
                *tree,
                i + 1,
            ) =~= base + flat_nodes(*tree));
        }
        i = i + 1;
    }
    proof {
        assert(flat_nodes_from(*tree, tree.children@.len() as int)
            =~= Seq::<(Seq<char>, Seq<char>, bool, Seq<Seq<char>>)>::empty());
        assert(out@.map_values(|n: FfiTreeNode| ffi_node_view(n)) =~= base + flat_nodes(
            *tree,
        ));
    }
}

/// All the tree's recipes in pre-order, by view.
pub open spec fn flat_recipes(t: RecipeTree) -> Seq<crate::entry::RecipeEntryView>
    decreases t, t.children@.len() + 1int,
{
    (match t.recipe {
        Some(e) => seq![e@],
        None => Seq::empty(),
    }) + flat_recipes_from(t, 0)
}

/// The recipes of the children's subtrees from `i` on, in pre-order.
pub open spec fn flat_recipes_from(t: RecipeTree, i: int) -> Seq<
    crate::entry::RecipeEntryView,
>
    decreases t, t.children@.len() - i,
{
    if i < 0 || i >= t.children@.len() {
        Seq::empty()
    } else {
        flat_recipes(t.children@[i].1) + flat_recipes_from(t, i + 1)
    }
}

/// Collects every recipe in the tree in pre-order, parents before
/// children.
pub fn collect_recipes(tree: &RecipeTree, out: &mut Vec<crate::entry::RecipeEntry>)
    ensures
        final(out)@.map_values(|e: crate::entry::RecipeEntry| e@) == old(out)@.map_values(
            |e: crate::entry::RecipeEntry| e@,
        ) + flat_recipes(*tree),
    decreases tree,
{
    let ghost base = out@.map_values(|e: crate::entry::RecipeEntry| e@);
    match &tree.recipe {
        Some(r) => {
            let copy = r.duplicate();
            out.push(copy);
            proof {
                assert(out@.map_values(|e: crate::entry::RecipeEntry| e@) =~= base.push(
                    tree.recipe->0@,
                ));
            }
        },
        None => {},
    }
    proof {
        assert(out@.map_values(|e: crate::entry::RecipeEntry| e@) + flat_recipes_from(
            *tree,
            0,
        ) =~= base + flat_recipes(*tree));
    }
    let mut i: usize = 0;
    while i < tree.children.len()
        invariant
            i <= tree.children@.len(),
            out@.map_values(|e: crate::entry::RecipeEntry| e@) + flat_recipes_from(
                *tree,
                i as int,
            ) =~= base + flat_recipes(*tree),
        decreases tree.children@.len() - i,
    {
        let ghost cur = out@.map_values(|e: crate::entry::RecipeEntry| e@);
        collect_recipes(&tree.children[i].1, out);
        proof {
            assert(out@.map_values(|e: crate::entry::RecipeEntry| e@) =~= cur + flat_recipes(
                tree.children@[i as int].1,
            ));
            assert(out@.map_values(|e: crate::entry::RecipeEntry| e@) + flat_recipes_from(
                *tree,
                i + 1,
            ) =~= base + flat_recipes(*tree));
        }
        i = i + 1;
    }
    proof {
        assert(flat_recipes_from(*tree, tree.children@.len() as int)
            =~= Seq::<crate::entry::RecipeEntryView>::empty());
        assert(out@.map_values(|e: crate::entry::RecipeEntry| e@) =~= base + flat_recipes(
            *tree,
        ));
    }
}

} // verus!
