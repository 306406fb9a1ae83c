//! Step images: auxiliary image files tied to a recipe's steps by a
//! filename numbering convention.
//!
//! A file `<base>.<N>.<ext>` (`N >= 1`) is the image of step `N` of a
//! linear recipe; `<base>.<S>.<N>.<ext>` (`S >= 1`, `N >= 1`) is the image
//! of step `N` in section `S`.  `<base>` is the recipe path without its
//! extension, and `<ext>` one of the recognised image extensions.  Indices
//! are stored zero-based; the public accessor is one-based, with section
//! zero standing for the linear form.

use vstd::prelude::*;
use crate::entry::image_exts;
use crate::paths::{file_name_of, name_has_ext, ext_split};
use crate::text::{is_digits, num_val, split_list, split_on_char, parse_decimal, check_match_at};

verus! {

/// The images of a recipe's steps, keyed by zero-based section and step.
#[derive(Debug, Clone)]
pub struct StepImageCollection {
    items: Vec<(usize, usize, String)>,
}

/// The image stored under a zero-based slot: the first entry with these
/// indices.
pub open spec fn slot_of(s: Seq<(int, int, Seq<char>)>, sec: int, step: int) -> Option<
    Seq<char>,
>
    decreases s.len(),
{
    if s.len() == 0 {
        None
    } else if s[0].0 == sec && s[0].1 == step {
        Some(s[0].2)
    } else {
        slot_of(s.subrange(1, s.len() as int), sec, step)
    }
}

/// The image a one-based lookup yields: a step of zero is always absent;
/// section zero addresses the linear section, section `k >= 1` the
/// internal section `k - 1`.
pub open spec fn get_of(s: Seq<(int, int, Seq<char>)>, section: int, step: int) -> Option<
    Seq<char>,
> {
    if step < 1 {
        None
    } else {
        let internal = if section == 0 {
            0
        } else {
            section - 1
        };
        slot_of(s, internal, step - 1)
    }
}

/// A step index of zero never denotes an image: a one-based lookup with
/// it is absent, whatever the collection holds.
pub proof fn lemma_step_zero_absent(s: Seq<(int, int, Seq<char>)>, section: int)
    ensures
        get_of(s, section, 0) is None,
{
}

impl View for StepImageCollection {
    type V = Seq<(int, int, Seq<char>)>;

    closed spec fn view(&self) -> Seq<(int, int, Seq<char>)> {
        self.items@.map_values(
            |t: (usize, usize, String)| (t.0 as int, t.1 as int, t.2@),
        )
    }
}

impl StepImageCollection {
    /// The empty collection.
    pub fn new() -> (r: StepImageCollection)
        ensures
            r@ == Seq::<(int, int, Seq<char>)>::empty(),
    {
        let r = StepImageCollection { items: Vec::new() };
        proof {
            assert(r@ =~= Seq::<(int, int, Seq<char>)>::empty());
        }
        r
    }

    /// Stores `image` under the zero-based slot, unless the slot is
    /// already occupied: the first write wins.
    pub fn insert(&mut self, section: usize, step: usize, image: String)
        ensures
            final(self)@ == if slot_of(old(self)@, section as int, step as int) is Some {
                old(self)@
            } else {
                old(self)@.push((section as int, step as int, image@))
            },
    {
        if self.get_internal(section, step).is_none() {
            self.items.push((section, step, image));
            proof {
                assert(self@ =~= old(self)@.push((section as int, step as int, image@)));
            }
        }
    }

    /// The image under a zero-based slot.
    fn get_internal(&self, section: usize, step: usize) -> (r: Option<&String>)
        ensures
            match r {
                Some(p) => slot_of(self@, section as int, step as int) == Some(p@),
                None => slot_of(self@, section as int, step as int) is None,
            },
    {
        let n = self.items.len();
        let mut i: usize = 0;
        proof {
            assert(self@.subrange(0, self@.len() as int) =~= self@);
        }
        while i < n
            invariant
                i <= n,
                n == self.items.len(),
                self@.len() == n,
                slot_of(self@, section as int, step as int) == slot_of(
                    self@.subrange(i as int, self@.len() as int),
                    section as int,
                    step as int,
                ),
            decreases n - i,
        {
            let ghost rest = self@.subrange(i as int, self@.len() as int);
            proof {
                assert(rest[0] == self@[i as int]);
                assert(rest.subrange(1, rest.len() as int) =~= self@.subrange(
                    i + 1,
                    self@.len() as int,
                ));
            }
            if self.items[i].0 == section && self.items[i].1 == step {
                return Some(&self.items[i].2);
            }
            i = i + 1;
        }
        None
    }

    /// The image of a one-based section and step; a step of zero is
    /// always absent.
    pub fn get(&self, section: usize, step: usize) -> (r: Option<&String>)
        ensures
            match r {
                Some(p) => get_of(self@, section as int, step as int) == Some(p@),
                None => get_of(self@, section as int, step as int) is None,
            },
    {
        if step < 1 {
            return None;
        }
        let internal = if section == 0 {
            0
        } else {
            section - 1
        };
        self.get_internal(internal, step - 1)
    }

    /// How many images the collection holds.
    pub fn len(&self) -> (r: usize)
        ensures
            r == self@.len(),
    {
        self.items.len()
    }

    /// The zero-based entries, in insertion order.
    pub fn entries(&self) -> (r: &Vec<(usize, usize, String)>)
        ensures
            r@.map_values(|t: (usize, usize, String)| (t.0 as int, t.1 as int, t.2@))
                == self@,
    {
        &self.items
    }
}

/// The recipe path without its extension: the base that step-image names
/// extend.
pub open spec fn step_base(p: Seq<char>) -> Seq<char> {
    let n = file_name_of(p);
    if name_has_ext(n) {
        p.subrange(0, p.len() - (n.len() - ext_split(n)))
    } else {
        p
    }
}

/// The zero-based slot named by the dot-separated numeric groups between
/// base and extension: one group `N >= 1` is step `N` of the linear
/// section, two groups `S >= 1`, `N >= 1` are step `N` of section `S`;
/// anything else names none.
pub open spec fn groups_slot(gs: Seq<Seq<char>>) -> Option<(int, int)> {
    if gs.len() == 1 && is_digits(gs[0]) && 1 <= num_val(gs[0]) && num_val(gs[0])
        <= usize::MAX as int {
        Some((0, num_val(gs[0]) - 1))
    } else if gs.len() == 2 && is_digits(gs[0]) && is_digits(gs[1]) && 1 <= num_val(gs[0])
        && num_val(gs[0]) <= usize::MAX as int && 1 <= num_val(gs[1]) && num_val(gs[1])
        <= usize::MAX as int {
        Some((num_val(gs[0]) - 1, num_val(gs[1]) - 1))
    } else {
        None
    }
}

/// The zero-based slot that file `f` names as a step image of the recipe
/// whose extension-stripped path is `base`, for extension `ext`, if any.
pub open spec fn step_slot_of(base: Seq<char>, f: Seq<char>, ext: Seq<char>) -> Option<(
    int,
    int,
)> {
    let pre = base + seq!['.'];
    let suf = seq!['.'] + ext;
    if f.len() >= pre.len() + suf.len() && f.subrange(0, pre.len() as int) == pre
        && f.subrange(f.len() - suf.len(), f.len() as int) == suf {
        groups_slot(split_list(f.subrange(pre.len() as int, f.len() - suf.len()), '.'))
    } else {
        None
    }
}

/// One file folded into the collection: inserted at its slot when it
/// names one and the slot is free.
pub open spec fn discover_step(
    s: Seq<(int, int, Seq<char>)>,
    base: Seq<char>,
    f: Seq<char>,
    ext: Seq<char>,
) -> Seq<(int, int, Seq<char>)> {
    match step_slot_of(base, f, ext) {
        Some((sec, st)) => if slot_of(s, sec, st) is Some {
            s
        } else {
            s.push((sec, st, f))
        },
        None => s,
    }
}

/// The files from `i` on folded into the collection, for one extension.
pub open spec fn discover_files(
    s: Seq<(int, int, Seq<char>)>,
    base: Seq<char>,
    files: Seq<Seq<char>>,
    ext: Seq<char>,
    i: int,
) -> Seq<(int, int, Seq<char>)>
    decreases files.len() - i,
{
    if i < 0 || i >= files.len() {
        s
    } else {
        discover_files(discover_step(s, base, files[i], ext), base, files, ext, i + 1)
    }
}

/// The extensions from `j` on folded into the collection, each scanning
/// all files: the outer loop over extensions makes extension priority the
/// first write.
pub open spec fn discover_exts(
    s: Seq<(int, int, Seq<char>)>,
    base: Seq<char>,
    files: Seq<Seq<char>>,
    j: int,
) -> Seq<(int, int, Seq<char>)>
    decreases image_exts().len() - j,
{
    if j < 0 || j >= image_exts().len() {
        s
    } else {
        discover_exts(discover_files(s, base, files, image_exts()[j], 0), base, files, j + 1)
    }
}

/// All step images of recipe `p` among the existing `files`.
pub open spec fn step_images_of(p: Seq<char>, files: Seq<Seq<char>>) -> Seq<(
    int,
    int,
    Seq<char>,
)> {
    discover_exts(Seq::empty(), step_base(p), files, 0)
}

/// The recipe path without its extension.
fn step_base_exec(p: &str) -> (r: String)
    ensures
        r@ == step_base(p@),
{
    let len = p.unicode_len();
    proof {
        crate::text::lemma_last_index_of(p@, '/');
        crate::text::lemma_last_index_of(p@, '.');
    }
    let start: usize = match crate::text::rfind_char(p, '/') {
        Some(k) => k + 1,
        None => 0,
    };
    proof {
        crate::paths::lemma_last_index_sub(p@, '.', start as int);
    }
    let cut: usize = match crate::text::rfind_char(p, '.') {
        Some(d) if d > start => d,
        _ => len,
    };
    proof {
        let n = file_name_of(p@);
        if cut < len {
            assert(ext_split(n) == cut - start);
            assert(p@.subrange(0, cut as int) =~= p@.subrange(
                0,
                p@.len() - (n.len() - ext_split(n)),
            ));
        } else {
            assert(!name_has_ext(n));
            assert(p@.subrange(0, cut as int) =~= p@);
        }
    }
    p.substring_char(0, cut).to_owned()
}

/// The slot that `f` names as a step image, for the given base and
/// extension.
fn parse_step_slot(base: &str, f: &str, ext: &str) -> (r: Option<(usize, usize)>)
    ensures
        match r {
            Some((sec, st)) => step_slot_of(base@, f@, ext@) == Some((
                sec as int,
                st as int,
            )),
            None => step_slot_of(base@, f@, ext@) is None,
        },
{
    let ghost pre_s = base@ + seq!['.'];
    let ghost suf_s = seq!['.'] + ext@;
    let mut pre = base.to_owned();
    pre.append(".");
    let mut suf = ".".to_owned();
    suf.append(ext);
    proof {
        reveal_strlit(".");
        assert(pre@ =~= pre_s);
        assert(suf@ =~= suf_s);
    }
    let flen = f.unicode_len();
    let plen = pre.as_str().unicode_len();
    let slen = suf.as_str().unicode_len();
    if flen < plen || flen - plen < slen {
        return None;
    }
    if !check_match_at(f, pre.as_str(), 0) {
        return None;
    }
    if !check_match_at(f, suf.as_str(), flen - slen) {
        return None;
    }
    proof {
        assert(f@.subrange(0, pre_s.len() as int) == pre_s);
        assert(f@.subrange(f@.len() - suf_s.len(), f@.len() as int) == suf_s);
    }
    let middle = f.substring_char(plen, flen - slen);
    let groups = split_on_char(middle, '.');
    let ghost gs = split_list(f@.subrange(pre_s.len() as int, f@.len() - suf_s.len()), '.');
    proof {
        assert(groups.deep_view() == gs);
    }
    if groups.len() == 1 {
        proof {
            assert(groups.deep_view()[0] == groups@[0]@);
        }
        match parse_decimal(groups[0].as_str()) {
            Some(n) if n >= 1 => Some((0, n - 1)),
            _ => None,
        }
    } else if groups.len() == 2 {
        proof {
            assert(groups.deep_view()[0] == groups@[0]@);
            assert(groups.deep_view()[1] == groups@[1]@);
        }
        match (parse_decimal(groups[0].as_str()), parse_decimal(groups[1].as_str())) {
            (Some(s), Some(n)) if s >= 1 && n >= 1 => Some((s - 1, n - 1)),
            _ => None,
        }
    } else {
        None
    }
}

/// Folds every file into the collection for one extension.
fn scan_ext(col: &mut StepImageCollection, base: &str, files: &Vec<String>, ext: &str)
    ensures
        final(col)@ == discover_files(old(col)@, base@, files.deep_view(), ext@, 0),
{
    let ghost fs = files.deep_view();
    let ghost start = col@;
    let n = files.len();
    let mut i: usize = 0;
    while i < n
        invariant
            i <= n,
            n == files.len(),
            fs == files.deep_view(),
            fs.len() == n,
            discover_files(col@, base@, fs, ext@, i as int) == discover_files(
                start,
                base@,
                fs,
                ext@,
                0,
            ),
        decreases n - i,
    {
        proof {
            assert(fs[i as int] == files@[i as int]@);
        }
        let ghost before = col@;
        match parse_step_slot(base, files[i].as_str(), ext) {
            Some((sec, st)) => {
                col.insert(sec, st, files[i].clone());
            },
            None => {},
        }
        proof {
            assert(col@ == discover_step(before, base@, fs[i as int], ext@));
        }
        i = i + 1;
    }
}

/// Discovers all step images of recipe `path` among the existing `files`,
/// extension priority enforced by scanning order.
pub fn find_step_images(path: &str, files: &Vec<String>) -> (r: StepImageCollection)
    ensures
        r@ == step_images_of(path@, files.deep_view()),
{
    let ghost fs = files.deep_view();
    let base = step_base_exec(path);
    let mut col = StepImageCollection::new();
    scan_ext(&mut col, base.as_str(), files, "jpg");
    proof {
        assert(discover_exts(Seq::empty(), base@, fs, 0) == discover_exts(col@, base@, fs, 1));
    }
    let ghost after0 = col@;
    scan_ext(&mut col, base.as_str(), files, "jpeg");
    proof {
        assert(discover_exts(after0, base@, fs, 1) == discover_exts(col@, base@, fs, 2));
    }
    let ghost after1 = col@;
    scan_ext(&mut col, base.as_str(), files, "png");
    proof {
        assert(discover_exts(after1, base@, fs, 2) == discover_exts(col@, base@, fs, 3));
    }
    let ghost after2 = col@;
    scan_ext(&mut col, base.as_str(), files, "webp");
    proof {
        assert(discover_exts(after2, base@, fs, 3) == discover_exts(col@, base@, fs, 4));
        assert(discover_exts(col@, base@, fs, 4) == col@);
    }
    col
}

} // verus!
