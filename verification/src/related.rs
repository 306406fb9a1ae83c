//! Related files: the transitive closure of a document's auxiliary files —
//! its title image, its step images, and every document it references by a
//! `@./…` or `@../…` token in its text.
//!
//! The traversal runs over a filesystem snapshot handed in as values: file
//! texts and directory listings.  When the snapshot lacks a file or a
//! listing the traversal asks for it, and the caller retries with a grown
//! snapshot.  A visited document is never re-entered, so a reference cycle
//! cannot make the traversal loop; termination is proved.

use vstd::prelude::*;
use crate::entry::{find_title_image, find_title_image_in, first_image_from, contains_string};
use crate::paths::{extension_of, join_of, parent_of, parent_dir, extension, join_path};
use crate::step_images::{find_step_images, discover_files, discover_exts, discover_step, step_base};
use crate::text::{is_space, str_eq, matches_at, check_match_at};

verus! {

/// A reference token starts at `j`: the path begins with `./` or `../`.
pub open spec fn starts_rel(s: Seq<char>, j: int) -> bool {
    matches_at(s, "./"@, j) || matches_at(s, "../"@, j)
}

/// End of a reference starting at `i`: the first whitespace or opening
/// brace at or after `i`, else the text's end.
pub open spec fn ref_end(s: Seq<char>, i: int) -> int
    decreases s.len() - i,
{
    if i < 0 || i >= s.len() {
        s.len() as int
    } else if is_space(s[i]) || s[i] == '{' {
        i
    } else {
        ref_end(s, i + 1)
    }
}

pub proof fn lemma_ref_end(s: Seq<char>, i: int)
    requires
        0 <= i <= s.len(),
    ensures
        i <= ref_end(s, i) <= s.len(),
    decreases s.len() - i,
{
    if i < s.len() && !(is_space(s[i]) || s[i] == '{') {
        lemma_ref_end(s, i + 1);
    }
}

/// The reference tokens of the text from position `i` on, in order, with
/// repetitions.
pub open spec fn refs_from(s: Seq<char>, i: int) -> Seq<Seq<char>>
    decreases s.len() - i, 0int
        via refs_from_decreases
{
    if i < 0 || i >= s.len() {
        Seq::empty()
    } else if s[i] == '@' && starts_rel(s, i + 1) {
        let e = ref_end(s, i + 1);
        seq![s.subrange(i + 1, e)] + refs_from(s, e)
    } else {
        refs_from(s, i + 1)
    }
}

#[via_fn]
proof fn refs_from_decreases(s: Seq<char>, i: int) {
    if 0 <= i < s.len() && s[i] == '@' && starts_rel(s, i + 1) {
        lemma_ref_end(s, i + 1);
        reveal_strlit("./");
        assert(ref_end(s, i + 1) > i);
    }
}

/// Whether `c` ends a reference token.
fn is_break_char(c: char) -> (r: bool)
    ensures
        r == (is_space(c) || c == '{'),
{
    c == ' ' || c == '\t' || c == '\r' || c == '\n' || c == '{'
}

/// First-seen deduplication.
pub open spec fn dedup(xs: Seq<Seq<char>>) -> Seq<Seq<char>>
    decreases xs.len(),
{
    if xs.len() == 0 {
        Seq::empty()
    } else {
        let rest = dedup(xs.drop_last());
        if rest.contains(xs.last()) {
            rest
        } else {
            rest.push(xs.last())
        }
    }
}

/// The distinct reference tokens of a document's text, in first-seen
/// order.
pub open spec fn references_of(s: Seq<char>) -> Seq<Seq<char>> {
    dedup(refs_from(s, 0))
}

/// Collects the reference tokens of `text`, deduplicated in first-seen
/// order.
pub fn extract_references(text: &str) -> (r: Vec<String>)
    ensures
        r.deep_view() == references_of(text@),
{
    let n = text.unicode_len();
    let mut raw: Vec<String> = Vec::new();
    let mut i: usize = 0;
    while i < n
        invariant
            i <= n,
            n == text@.len(),
            raw.deep_view() + refs_from(text@, i as int) =~= refs_from(text@, 0),
        decreases n - i,
    {
        proof {
            reveal_strlit("./");
            reveal_strlit("../");
        }
        let c = text.get_char(i);
        let is_ref = c == '@' && ((n - i >= 3 && check_match_at(text, "./", i + 1)) || (n - i
            >= 4 && check_match_at(text, "../", i + 1)));
        proof {
            if !is_ref && c == '@' {
                assert(!starts_rel(text@, i + 1));
            }
        }
        if is_ref {
            proof {
                lemma_ref_end(text@, i + 1);
            }
            let mut e = i + 1;
            while e < n && !is_break_char(text.get_char(e))
                invariant
                    i + 1 <= e <= n,
                    n == text@.len(),
                    ref_end(text@, i + 1) == ref_end(text@, e as int),
                decreases n - e,
            {
                e = e + 1;
            }
            proof {
                assert(ref_end(text@, e as int) == e);
                assert(ref_end(text@, i + 1) == e);
            }
            let piece = text.substring_char(i + 1, e);
            let ghost old_raw = raw.deep_view();
            raw.push(piece.to_owned());
            proof {
                assert(raw.deep_view() =~= old_raw + seq![piece@]);
                assert(raw.deep_view() + refs_from(text@, e as int) =~= refs_from(text@, 0));
            }
            i = e;
        } else {
            i = i + 1;
        }
    }
    proof {
        assert(raw.deep_view() =~= refs_from(text@, 0));
    }
    let mut res: Vec<String> = Vec::new();
    let mut k: usize = 0;
    proof {
        assert(raw.deep_view().subrange(0, 0) =~= Seq::<Seq<char>>::empty());
        assert(res.deep_view() =~= dedup(raw.deep_view().subrange(0, 0)));
    }
    while k < raw.len()
        invariant
            k <= raw.len(),
            raw.deep_view() == refs_from(text@, 0),
            raw.deep_view().len() == raw.len(),
            res.deep_view() == dedup(raw.deep_view().subrange(0, k as int)),
        decreases raw.len() - k,
    {
        proof {
            assert(raw.deep_view()[k as int] == raw@[k as int]@);
            assert(raw.deep_view().subrange(0, k + 1).drop_last() =~= raw.deep_view().subrange(
                0,
                k as int,
            ));
            assert(raw.deep_view().subrange(0, k + 1).last() == raw.deep_view()[k as int]);
        }
        let ghost old_res = res.deep_view();
        if !contains_string(&res, raw[k].as_str()) {
            res.push(raw[k].clone());
            proof {
                assert(res.deep_view() =~= old_res.push(raw@[k as int]@));
            }
        }
        k = k + 1;
    }
    proof {
        assert(raw.deep_view().subrange(0, raw.deep_view().len() as int) =~= raw.deep_view());
    }
    res
}

/// A reference resolved against the referring document's directory and
/// normalised; one without an extension gets `.cook` appended.
pub open spec fn resolved_ref(dir: Seq<char>, r: Seq<char>) -> Seq<char> {
    let j = crate::paths::normalized(join_of(dir, r));
    if extension_of(j) is Some {
        j
    } else {
        j + ".cook"@
    }
}

/// Resolves one reference token against a directory.
pub fn resolve_reference(dir: &str, r: &str) -> (c: String)
    ensures
        c@ == resolved_ref(dir@, r@),
{
    let j = join_path(dir, r);
    let n = crate::paths::normalize_path(j.as_str());
    match extension(n.as_str()) {
        Some(_) => n,
        None => {
            let mut out = n;
            out.append(".cook");
            proof {
                reveal_strlit(".cook");
                assert(out@ =~= resolved_ref(dir@, r@));
            }
            out
        },
    }
}

/// A filesystem snapshot: what is known of file texts and directory
/// listings.  A file entry with no text records that the file does not
/// exist or cannot be read.
pub struct FsSnapshot {
    files: Vec<(String, Option<String>)>,
    dirs: Vec<(String, Vec<String>)>,
}

/// Mathematical form of a snapshot.
pub struct FsSnapshotView {
    pub files: Seq<(Seq<char>, Option<Seq<char>>)>,
    pub dirs: Seq<(Seq<char>, Seq<Seq<char>>)>,
}

impl View for FsSnapshot {
    type V = FsSnapshotView;

    closed spec fn view(&self) -> FsSnapshotView {
        FsSnapshotView {
            files: self.files@.map_values(
                |e: (String, Option<String>)| (e.0@, e.1.deep_view()),
            ),
            dirs: self.dirs@.map_values(
                |e: (String, Vec<String>)| (e.0@, e.1.deep_view()),
            ),
        }
    }
}

/// What the snapshot knows of the file at `p`: nothing, or its text or
/// its absence.
pub open spec fn file_text_of(
    files: Seq<(Seq<char>, Option<Seq<char>>)>,
    p: Seq<char>,
) -> Option<Option<Seq<char>>>
    decreases files.len(),
{
    if files.len() == 0 {
        None
    } else if files[0].0 == p {
        Some(files[0].1)
    } else {
        file_text_of(files.subrange(1, files.len() as int), p)
    }
}

/// What the snapshot knows of the directory at `d`.
pub open spec fn listing_of(
    dirs: Seq<(Seq<char>, Seq<Seq<char>>)>,
    d: Seq<char>,
) -> Option<Seq<Seq<char>>>
    decreases dirs.len(),
{
    if dirs.len() == 0 {
        None
    } else if dirs[0].0 == d {
        Some(dirs[0].1)
    } else {
        listing_of(dirs.subrange(1, dirs.len() as int), d)
    }
}

/// The snapshot shows `x` to exist: it stands in a known directory
/// listing, or it is a file with text.
pub open spec fn in_snapshot(snap: FsSnapshotView, x: Seq<char>) -> bool {
    (exists|j: int| 0 <= j < snap.dirs.len() && #[trigger] snap.dirs[j].1.contains(x))
        || file_text_of(snap.files, x) matches Some(Some(_))
}

proof fn lemma_listing_of_exists(dirs: Seq<(Seq<char>, Seq<Seq<char>>)>, d: Seq<char>)
    requires
        listing_of(dirs, d) is Some,
    ensures
        exists|j: int|
            0 <= j < dirs.len() && #[trigger] dirs[j].1 == listing_of(dirs, d)->0,
    decreases dirs.len(),
{
    if dirs.len() > 0 && dirs[0].0 != d {
        lemma_listing_of_exists(dirs.subrange(1, dirs.len() as int), d);
        let sub = dirs.subrange(1, dirs.len() as int);
        let j = choose|j: int| 0 <= j < sub.len() && #[trigger] sub[j].1 == listing_of(sub, d)->0;
        assert(dirs[j + 1].1 == listing_of(dirs, d)->0);
    }
}

impl FsSnapshot {
    /// The empty snapshot.
    pub fn new() -> (r: FsSnapshot)
        ensures
            r@.files == Seq::<(Seq<char>, Option<Seq<char>>)>::empty(),
            r@.dirs == Seq::<(Seq<char>, Seq<Seq<char>>)>::empty(),
    {
        let r = FsSnapshot { files: Vec::new(), dirs: Vec::new() };
        proof {
            assert(r@.files =~= Seq::<(Seq<char>, Option<Seq<char>>)>::empty());
            assert(r@.dirs =~= Seq::<(Seq<char>, Seq<Seq<char>>)>::empty());
        }
        r
    }

    /// Records what is known of the file at `path`.
    pub fn add_file(&mut self, path: String, text: Option<String>)
        ensures
            final(self)@.files == old(self)@.files.push((path@, text.deep_view())),
            final(self)@.dirs == old(self)@.dirs,
    {
        self.files.push((path, text));
        proof {
            assert(self@.files =~= old(self)@.files.push(
                (self.files@.last().0@, self.files@.last().1.deep_view()),
            ));
            assert(self@.dirs =~= old(self)@.dirs);
        }
    }

    /// Records the listing of the directory at `path`.
    pub fn add_dir(&mut self, path: String, entries: Vec<String>)
        ensures
            final(self)@.dirs == old(self)@.dirs.push((path@, entries.deep_view())),
            final(self)@.files == old(self)@.files,
    {
        self.dirs.push((path, entries));
        proof {
            assert(self@.dirs =~= old(self)@.dirs.push(
                (self.dirs@.last().0@, self.dirs@.last().1.deep_view()),
            ));
            assert(self@.files =~= old(self)@.files);
        }
    }

    /// What is known of the file at `p`.
    fn file_entry(&self, p: &str) -> (r: Option<&Option<String>>)
        ensures
            match r {
                Some(t) => file_text_of(self@.files, p@) == Some(t.deep_view()),
                None => file_text_of(self@.files, p@) is None,
            },
    {
        let n = self.files.len();
        let mut i: usize = 0;
        proof {
            assert(self@.files.subrange(0, self@.files.len() as int) =~= self@.files);
        }
        while i < n
            invariant
                i <= n,
                n == self.files.len(),
                self@.files.len() == n,
                file_text_of(self@.files, p@) == file_text_of(
                    self@.files.subrange(i as int, self@.files.len() as int),
                    p@,
                ),
            decreases n - i,
        {
            let ghost rest = self@.files.subrange(i as int, self@.files.len() as int);
            proof {
                assert(rest[0] == self@.files[i as int]);
                assert(rest.subrange(1, rest.len() as int) =~= self@.files.subrange(
                    i + 1,
                    self@.files.len() as int,
                ));
            }
            if str_eq(self.files[i].0.as_str(), p) {
                return Some(&self.files[i].1);
            }
            i = i + 1;
        }
        None
    }

    /// What is known of the directory at `d`.
    fn listing(&self, d: &str) -> (r: Option<&Vec<String>>)
        ensures
            match r {
                Some(l) => listing_of(self@.dirs, d@) == Some(l.deep_view()),
                None => listing_of(self@.dirs, d@) is None,
            },
    {
        let n = self.dirs.len();
        let mut i: usize = 0;
        proof {
            assert(self@.dirs.subrange(0, self@.dirs.len() as int) =~= self@.dirs);
        }
        while i < n
            invariant
                i <= n,
                n == self.dirs.len(),
                self@.dirs.len() == n,
                listing_of(self@.dirs, d@) == listing_of(
                    self@.dirs.subrange(i as int, self@.dirs.len() as int),
                    d@,
                ),
            decreases n - i,
        {
            let ghost rest = self@.dirs.subrange(i as int, self@.dirs.len() as int);
            proof {
                assert(rest[0] == self@.dirs[i as int]);
                assert(rest.subrange(1, rest.len() as int) =~= self@.dirs.subrange(
                    i + 1,
                    self@.dirs.len() as int,
                ));
            }
            if str_eq(self.dirs[i].0.as_str(), d) {
                return Some(&self.dirs[i].1);
            }
            i = i + 1;
        }
        None
    }
}

/// What the traversal still needs from the filesystem.
#[derive(Debug, Clone)]
pub enum FsNeed {
    /// The text of this file, or word that it does not exist.
    FileText(String),
    /// The listing of this directory.
    DirListing(String),
}

/// One document being walked: its directory and its references, with the
/// next one to follow.
struct Frame {
    dir: String,
    refs: Vec<String>,
    idx: usize,
}

/// Mathematical form of a frame.
pub struct FrameView {
    pub dir: Seq<char>,
    pub refs: Seq<Seq<char>>,
    pub idx: int,
}

impl View for Frame {
    type V = FrameView;

    closed spec fn view(&self) -> FrameView {
        FrameView { dir: self.dir@, refs: self.refs.deep_view(), idx: self.idx as int }
    }
}

impl DeepView for Frame {
    type V = FrameView;

    open spec fn deep_view(&self) -> FrameView {
        self.view()
    }
}

/// References not yet followed, over all open frames.
pub open spec fn pending_sum(fs: Seq<FrameView>) -> int
    decreases fs.len(),
{
    if fs.len() == 0 {
        0
    } else {
        pending_sum(fs.drop_last()) + (fs.last().refs.len() - fs.last().idx)
    }
}

proof fn lemma_pending_nonneg(fs: Seq<FrameView>)
    requires
        forall|j: int| 0 <= j < fs.len() ==> #[trigger] fs[j].idx <= fs[j].refs.len(),
    ensures
        pending_sum(fs) >= 0,
    decreases fs.len(),
{
    if fs.len() > 0 {
        lemma_pending_nonneg(fs.drop_last());
    }
}

proof fn lemma_first_image_in_files(path: Seq<char>, files: Seq<Seq<char>>, i: int)
    requires
        first_image_from(path, files, i) is Some,
    ensures
        files.contains(first_image_from(path, files, i)->0),
    decreases crate::entry::image_exts().len() - i,
{
    if 0 <= i < crate::entry::image_exts().len() && !files.contains(
        crate::paths::with_ext_of(path, crate::entry::image_exts()[i]),
    ) {
        lemma_first_image_in_files(path, files, i + 1);
    }
}

proof fn lemma_discover_files_members(
    s: Seq<(int, int, Seq<char>)>,
    base: Seq<char>,
    files: Seq<Seq<char>>,
    ext: Seq<char>,
    i: int,
)
    requires
        forall|k: int| 0 <= k < s.len() ==> files.contains(#[trigger] s[k].2),
    ensures
        forall|k: int|
            0 <= k < discover_files(s, base, files, ext, i).len() ==> files.contains(
                #[trigger] discover_files(s, base, files, ext, i)[k].2,
            ),
    decreases files.len() - i,
{
    let out = discover_files(s, base, files, ext, i);
    if 0 <= i < files.len() {
        let s2 = discover_step(s, base, files[i], ext);
        assert(forall|k: int| 0 <= k < s2.len() ==> files.contains(#[trigger] s2[k].2)) by {
            assert(files.contains(files[i]));
        }
        lemma_discover_files_members(s2, base, files, ext, i + 1);
        assert(out == discover_files(s2, base, files, ext, i + 1));
        assert forall|k: int| 0 <= k < out.len() implies files.contains(
            #[trigger] out[k].2,
        ) by {
            assert(out[k] == discover_files(s2, base, files, ext, i + 1)[k]);
        }
    } else {
        assert(out == s);
        assert forall|k: int| 0 <= k < out.len() implies files.contains(
            #[trigger] out[k].2,
        ) by {
            assert(out[k].2 == s[k].2);
        }
    }
}

proof fn lemma_discover_exts_members(
    s: Seq<(int, int, Seq<char>)>,
    base: Seq<char>,
    files: Seq<Seq<char>>,
    j: int,
)
    requires
        forall|k: int| 0 <= k < s.len() ==> files.contains(#[trigger] s[k].2),
    ensures
        forall|k: int|
            0 <= k < discover_exts(s, base, files, j).len() ==> files.contains(
                #[trigger] discover_exts(s, base, files, j)[k].2,
            ),
    decreases crate::entry::image_exts().len() - j,
{
    let out = discover_exts(s, base, files, j);
    if 0 <= j < crate::entry::image_exts().len() {
        lemma_discover_files_members(s, base, files, crate::entry::image_exts()[j], 0);
        let s2 = discover_files(s, base, files, crate::entry::image_exts()[j], 0);
        lemma_discover_exts_members(s2, base, files, j + 1);
        assert(out == discover_exts(s2, base, files, j + 1));
        assert forall|k: int| 0 <= k < out.len() implies files.contains(
            #[trigger] out[k].2,
        ) by {
            assert(out[k] == discover_exts(s2, base, files, j + 1)[k]);
        }
    } else {
        assert(out == s);
        assert forall|k: int| 0 <= k < out.len() implies files.contains(
            #[trigger] out[k].2,
        ) by {
            assert(out[k].2 == s[k].2);
        }
    }
}

/// `x` joined to the collected list, unless it is the starting path or
/// already collected.
pub open spec fn push_unique_s(
    result: Seq<Seq<char>>,
    x: Seq<char>,
    start: Seq<char>,
) -> Seq<Seq<char>> {
    if x == start || result.contains(x) {
        result
    } else {
        result.push(x)
    }
}

/// The step images from `i` on joined to the collected list.
pub open spec fn push_steps_s(
    result: Seq<Seq<char>>,
    entries: Seq<(int, int, Seq<char>)>,
    i: int,
    start: Seq<char>,
) -> Seq<Seq<char>>
    decreases entries.len() - i,
{
    if i < 0 || i >= entries.len() {
        result
    } else {
        push_steps_s(push_unique_s(result, entries[i].2, start), entries, i + 1, start)
    }
}

/// The title image and then the step images of the document at `p`
/// joined to the collected list, given its directory's listing.
pub open spec fn push_images_s(
    result: Seq<Seq<char>>,
    p: Seq<char>,
    listing: Seq<Seq<char>>,
    start: Seq<char>,
) -> Seq<Seq<char>> {
    let with_title = match find_title_image_in(p, listing) {
        Some(img) => push_unique_s(result, img, start),
        None => result,
    };
    push_steps_s(with_title, crate::step_images::step_images_of(p, listing), 0, start)
}

/// The documents the snapshot offers for visiting: the paths with known
/// text, the starting one excluded, in snapshot order.
pub open spec fn remaining_of(
    files: Seq<(Seq<char>, Option<Seq<char>>)>,
    start: Seq<char>,
) -> Seq<Seq<char>>
    decreases files.len(),
{
    if files.len() == 0 {
        Seq::empty()
    } else {
        let rest = remaining_of(files.subrange(1, files.len() as int), start);
        if files[0].1 is Some && files[0].0 != start {
            seq![files[0].0] + rest
        } else {
            rest
        }
    }
}

/// First position of `x` in `xs` at or after `i`, or `xs.len()`.
pub open spec fn index_in(xs: Seq<Seq<char>>, x: Seq<char>, i: int) -> int
    decreases xs.len() - i,
{
    if i < 0 || i >= xs.len() {
        xs.len() as int
    } else if xs[i] == x {
        i
    } else {
        index_in(xs, x, i + 1)
    }
}

proof fn lemma_index_in_bounds(xs: Seq<Seq<char>>, x: Seq<char>, i: int)
    requires
        0 <= i <= xs.len(),
    ensures
        i <= index_in(xs, x, i) <= xs.len(),
    decreases xs.len() - i,
{
    if i < xs.len() && xs[i] != x {
        lemma_index_in_bounds(xs, x, i + 1);
    }
}

/// One open frame's unfollowed references.
pub open spec fn frame_pending(f: FrameView) -> int {
    if f.idx < f.refs.len() {
        f.refs.len() - f.idx
    } else {
        0
    }
}

/// Unfollowed references over all open frames, never negative.
pub open spec fn pending_clamped(fs: Seq<FrameView>) -> int
    decreases fs.len(),
{
    if fs.len() == 0 {
        0
    } else {
        pending_clamped(fs.drop_last()) + frame_pending(fs.last())
    }
}

proof fn lemma_pending_clamped_nonneg(fs: Seq<FrameView>)
    ensures
        pending_clamped(fs) >= 0,
    decreases fs.len(),
{
    if fs.len() > 0 {
        lemma_pending_clamped_nonneg(fs.drop_last());
    }
}

/// What one closure run yields: the finished list, or the name of what
/// the snapshot still lacks.
pub enum ClosureOutcome {
    Done(Seq<Seq<char>>),
    NeedFile(Seq<char>),
    NeedDir(Seq<char>),
}

/// The closure traversal, step by step: the top frame's next reference is
/// resolved; an unknown file is asked for; a missing one is dropped; a
/// not-yet-visited document is visited — collected, its images joined,
/// its references opened — and a visited one is skipped.
pub open spec fn closure_run(
    snap: FsSnapshotView,
    start: Seq<char>,
    result: Seq<Seq<char>>,
    remaining: Seq<Seq<char>>,
    stack: Seq<FrameView>,
) -> ClosureOutcome
    decreases remaining.len(), pending_clamped(stack) + stack.len()
        via closure_run_decreases
{
    if stack.len() == 0 {
        ClosureOutcome::Done(result)
    } else {
        let frame = stack.last();
        let rest = stack.drop_last();
        if frame.idx >= frame.refs.len() {
            closure_run(snap, start, result, remaining, rest)
        } else {
            let cand = resolved_ref(frame.dir, frame.refs[frame.idx]);
            let stack2 = rest.push(
                FrameView { dir: frame.dir, refs: frame.refs, idx: frame.idx + 1 },
            );
            match file_text_of(snap.files, cand) {
                None => ClosureOutcome::NeedFile(cand),
                Some(None) => closure_run(snap, start, result, remaining, stack2),
                Some(Some(reftext)) => {
                    let pos = index_in(remaining, cand, 0);
                    if pos >= remaining.len() {
                        closure_run(snap, start, result, remaining, stack2)
                    } else {
                        match listing_of(snap.dirs, parent_of(cand)) {
                            None => ClosureOutcome::NeedDir(parent_of(cand)),
                            Some(listing) => closure_run(
                                snap,
                                start,
                                push_images_s(
                                    push_unique_s(result, cand, start),
                                    cand,
                                    listing,
                                    start,
                                ),
                                remaining.remove(pos),
                                stack2.push(
                                    FrameView {
                                        dir: parent_of(cand),
                                        refs: references_of(reftext),
                                        idx: 0,
                                    },
                                ),
                            ),
                        }
                    }
                },
            }
        }
    }
}

#[via_fn]
proof fn closure_run_decreases(
    snap: FsSnapshotView,
    start: Seq<char>,
    result: Seq<Seq<char>>,
    remaining: Seq<Seq<char>>,
    stack: Seq<FrameView>,
) {
    if stack.len() > 0 {
        let frame = stack.last();
        let rest = stack.drop_last();
        lemma_pending_clamped_nonneg(rest);
        lemma_pending_clamped_nonneg(stack);
        if frame.idx < frame.refs.len() {
            let stack2 = rest.push(
                FrameView { dir: frame.dir, refs: frame.refs, idx: frame.idx + 1 },
            );
            assert(stack2.drop_last() =~= rest);
            lemma_pending_clamped_nonneg(stack2);
            let cand = resolved_ref(frame.dir, frame.refs[frame.idx]);
            lemma_index_in_bounds(remaining, cand, 0);
            let pos = index_in(remaining, cand, 0);
            if pos < remaining.len() {
                assert(remaining.remove(pos).len() < remaining.len());
            }
        }
    }
}

/// The closure's outcome over a snapshot: the starting document's images
/// first, then the depth-first walk of its references.
pub open spec fn related_outcome(
    snap: FsSnapshotView,
    start: Seq<char>,
    text: Seq<char>,
) -> ClosureOutcome {
    let dir = parent_of(start);
    match listing_of(snap.dirs, dir) {
        None => ClosureOutcome::NeedDir(dir),
        Some(listing) => closure_run(
            snap,
            start,
            push_images_s(Seq::empty(), start, listing, start),
            remaining_of(snap.files, start),
            seq![FrameView { dir, refs: references_of(text), idx: 0 }],
        ),
    }
}

/// Appends `x` unless it is the starting path or already collected.
fn push_unique(result: &mut Vec<String>, x: &str, start: &str)
    ensures
        final(result).deep_view() == push_unique_s(old(result).deep_view(), x@, start@),
{
    if str_eq(x, start) {
        return ;
    }
    if contains_string(result, x) {
        return ;
    }
    result.push(x.to_owned());
    proof {
        assert(result.deep_view() =~= old(result).deep_view().push(x@));
    }
}

/// Appends the title image and the step images of the document at `p`,
/// given the listing of its directory, each unless already collected.
fn push_images(
    result: &mut Vec<String>,
    p: &str,
    listing: &Vec<String>,
    start: &str,
    Ghost(snap): Ghost<FsSnapshotView>,
    Ghost(dir): Ghost<Seq<char>>,
)
    requires
        listing_of(snap.dirs, dir) == Some(listing.deep_view()),
        old(result).deep_view().no_duplicates(),
        !old(result).deep_view().contains(start@),
        forall|k: int|
            0 <= k < old(result).deep_view().len() ==> in_snapshot(
                snap,
                #[trigger] old(result).deep_view()[k],
            ),
    ensures
        final(result).deep_view() == push_images_s(
            old(result).deep_view(),
            p@,
            listing.deep_view(),
            start@,
        ),
        final(result).deep_view().no_duplicates(),
        !final(result).deep_view().contains(start@),
        forall|k: int|
            0 <= k < final(result).deep_view().len() ==> in_snapshot(
                snap,
                #[trigger] final(result).deep_view()[k],
            ),
{
    proof {
        lemma_listing_of_exists(snap.dirs, dir);
    }
    let ghost fls = listing.deep_view();
    if let Some(img) = find_title_image(p, listing) {
        proof {
            lemma_first_image_in_files(p@, fls, 0);
            let j = choose|j: int|
                0 <= j < snap.dirs.len() && #[trigger] snap.dirs[j].1 == listing_of(
                    snap.dirs,
                    dir,
                )->0;
            assert(snap.dirs[j].1.contains(img@));
            assert(in_snapshot(snap, img@));
        }
        let ghost before = result.deep_view();
        push_unique(result, img.as_str(), start);
        proof {
            if result.deep_view() != before {
                lemma_push_keeps(before, img@, start@, snap);
            }
        }
    }
    let ghost with_title = result.deep_view();
    let col = find_step_images(p, listing);
    proof {
        lemma_discover_exts_members(Seq::empty(), step_base(p@), fls, 0);
    }
    let entries = col.entries();
    let mut i: usize = 0;
    while i < entries.len()
        invariant
            i <= entries.len(),
            entries@.map_values(
                |t: (usize, usize, String)| (t.0 as int, t.1 as int, t.2@),
            ) == col@,
            col@ == crate::step_images::step_images_of(p@, fls),
            col@.len() == entries@.len(),
            push_steps_s(result.deep_view(), col@, i as int, start@) == push_steps_s(
                with_title,
                col@,
                0,
                start@,
            ),
            forall|k: int| 0 <= k < col@.len() ==> fls.contains(#[trigger] col@[k].2),
            listing_of(snap.dirs, dir) == Some(fls),
            result.deep_view().no_duplicates(),
            !result.deep_view().contains(start@),
            forall|k: int|
                0 <= k < result.deep_view().len() ==> in_snapshot(
                    snap,
                    #[trigger] result.deep_view()[k],
                ),
        decreases entries.len() - i,
    {
        proof {
            assert(col@[i as int].2 == entries@[i as int].2@);
            assert(fls.contains(col@[i as int].2));
            lemma_listing_of_exists(snap.dirs, dir);
            let j = choose|j: int|
                0 <= j < snap.dirs.len() && #[trigger] snap.dirs[j].1 == listing_of(
                    snap.dirs,
                    dir,
                )->0;
            assert(snap.dirs[j].1.contains(entries@[i as int].2@));
            assert(in_snapshot(snap, entries@[i as int].2@));
        }
        let ghost before = result.deep_view();
        push_unique(result, entries[i].2.as_str(), start);
        proof {
            if result.deep_view() != before {
                lemma_push_keeps(before, entries@[i as int].2@, start@, snap);
            }
            assert(result.deep_view() == push_unique_s(before, col@[i as int].2, start@));
            assert(push_steps_s(before, col@, i as int, start@) == push_steps_s(
                result.deep_view(),
                col@,
                i + 1,
                start@,
            ));
        }
        i = i + 1;
    }
    proof {
        assert(push_steps_s(result.deep_view(), col@, entries@.len() as int, start@)
            == result.deep_view());
        assert(result.deep_view() == push_images_s(
            old(result).deep_view(),
            p@,
            listing.deep_view(),
            start@,
        ));
    }
}

/// Pushing a fresh element keeps the collected list's properties.
proof fn lemma_push_keeps(
    before: Seq<Seq<char>>,
    x: Seq<char>,
    start: Seq<char>,
    snap: FsSnapshotView,
)
    requires
        before.no_duplicates(),
        !before.contains(start),
        !before.contains(x),
        x != start,
        in_snapshot(snap, x),
        forall|k: int| 0 <= k < before.len() ==> in_snapshot(snap, #[trigger] before[k]),
    ensures
        before.push(x).no_duplicates(),
        !before.push(x).contains(start),
        forall|k: int|
            0 <= k < before.push(x).len() ==> in_snapshot(snap, #[trigger] before.push(x)[k]),
{
    let after = before.push(x);
    assert forall|k: int| 0 <= k < after.len() implies in_snapshot(
        snap,
        #[trigger] after[k],
    ) by {
        if k < before.len() {
            assert(after[k] == before[k]);
        } else {
            assert(after[k] == x);
        }
    }
    assert forall|k: int| 0 <= k < after.len() implies after[k] != start by {
        if k < before.len() {
            assert(!before.contains(start));
            assert(after[k] == before[k]);
        }
    }
    if after.contains(start) {
        let k = choose|k: int| 0 <= k < after.len() && after[k] == start;
        assert(false);
    }
}

/// Walks the closure of related files of the document at `start` with
/// text `text`, over the snapshot.  Asks for a missing file text or
/// directory listing instead of touching the disk.  The result is
/// exactly what the spec traversal `related_outcome` computes — the
/// collected list, or the missing piece a reference actually reached —
/// and the list holds no duplicates, never the starting document itself,
/// and only files the snapshot shows to exist.
pub fn related_files(start: &str, text: &str, snap: &FsSnapshot) -> (r: Result<
    Vec<String>,
    FsNeed,
>)
    ensures
        match r {
            Ok(v) => related_outcome(snap@, start@, text@) == ClosureOutcome::Done(
                v.deep_view(),
            ) && v.deep_view().no_duplicates() && !v.deep_view().contains(start@)
                && forall|k: int|
                0 <= k < v.deep_view().len() ==> in_snapshot(
                    snap@,
                    #[trigger] v.deep_view()[k],
                ),
            Err(FsNeed::FileText(p)) => related_outcome(snap@, start@, text@)
                == ClosureOutcome::NeedFile(p@) && file_text_of(snap@.files, p@) is None,
            Err(FsNeed::DirListing(d)) => related_outcome(snap@, start@, text@)
                == ClosureOutcome::NeedDir(d@) && listing_of(snap@.dirs, d@) is None,
        },
{
    let mut result: Vec<String> = Vec::new();
    proof {
        assert(result.deep_view() =~= Seq::<Seq<char>>::empty());
    }
    let start_dir = parent_dir(start);
    let listing0 = match snap.listing(start_dir.as_str()) {
        Some(l) => l,
        None => {
            return Err(FsNeed::DirListing(start_dir));
        },
    };
    push_images(
        &mut result,
        start,
        listing0,
        start,
        Ghost(snap@),
        Ghost(start_dir@),
    );
    // every document with known text may be visited once
    let ghost fview = snap@.files;
    let mut remaining: Vec<String> = Vec::new();
    let mut fi: usize = 0;
    proof {
        assert(fview.subrange(0, fview.len() as int) =~= fview);
        assert(remaining.deep_view() =~= Seq::<Seq<char>>::empty());
    }
    while fi < snap.files.len()
        invariant
            fi <= snap.files.len(),
            fview == snap@.files,
            fview.len() == snap.files.len(),
            remaining.deep_view() + remaining_of(
                fview.subrange(fi as int, fview.len() as int),
                start@,
            ) =~= remaining_of(fview, start@),
        decreases snap.files.len() - fi,
    {
        let ghost rest = fview.subrange(fi as int, fview.len() as int);
        proof {
            assert(fview[fi as int] == (
                snap.files@[fi as int].0@,
                snap.files@[fi as int].1.deep_view(),
            ));
            assert(rest[0] == fview[fi as int]);
            assert(rest.subrange(1, rest.len() as int) =~= fview.subrange(
                fi + 1,
                fview.len() as int,
            ));
        }
        let ghost old_rem = remaining.deep_view();
        if snap.files[fi].1.is_some() && !str_eq(snap.files[fi].0.as_str(), start) {
            remaining.push(snap.files[fi].0.clone());
            proof {
                assert(remaining.deep_view() =~= old_rem.push(fview[fi as int].0));
            }
        }
        fi = fi + 1;
    }
    proof {
        assert(remaining_of(fview.subrange(fview.len() as int, fview.len() as int), start@)
            =~= Seq::<Seq<char>>::empty());
        assert(remaining.deep_view() =~= remaining_of(fview, start@));
    }
    let mut stack: Vec<Frame> = Vec::new();
    stack.push(Frame { dir: start_dir, refs: extract_references(text), idx: 0 });
    proof {
        assert(stack.deep_view() =~= seq![
            FrameView { dir: parent_of(start@), refs: references_of(text@), idx: 0 },
        ]);
        assert(closure_run(
            snap@,
            start@,
            result.deep_view(),
            remaining.deep_view(),
            stack.deep_view(),
        ) == related_outcome(snap@, start@, text@));
    }
    loop
        invariant
            closure_run(
                snap@,
                start@,
                result.deep_view(),
                remaining.deep_view(),
                stack.deep_view(),
            ) == related_outcome(snap@, start@, text@),
            result.deep_view().no_duplicates(),
            !result.deep_view().contains(start@),
            forall|k: int|
                0 <= k < result.deep_view().len() ==> in_snapshot(
                    snap@,
                    #[trigger] result.deep_view()[k],
                ),
            forall|j: int|
                0 <= j < stack.deep_view().len() ==> #[trigger] stack.deep_view()[j].idx
                    <= stack.deep_view()[j].refs.len(),
        decreases remaining.len(), pending_sum(stack.deep_view()) + stack.len(),
    {
        let ghost s_pre = stack.deep_view();
        let ghost res0 = result.deep_view();
        let ghost rem0 = remaining.deep_view();
        proof {
            lemma_pending_nonneg(s_pre);
        }
        let frame = match stack.pop() {
            Some(f) => f,
            None => {
                proof {
                    assert(closure_run(snap@, start@, res0, rem0, s_pre)
                        == ClosureOutcome::Done(res0));
                }
                return Ok(result);
            },
        };
        let ghost s1 = stack.deep_view();
        proof {
            assert(s1 =~= s_pre.drop_last());
            assert(s1.push(frame@) =~= s_pre);
            assert(s_pre.last() == frame@);
            assert(pending_sum(s_pre) == pending_sum(s1) + (frame@.refs.len() - frame@.idx));
            assert(forall|j: int|
                0 <= j < s1.len() ==> #[trigger] s1[j].idx <= s1[j].refs.len());
            lemma_pending_nonneg(s1);
        }
        if frame.idx >= frame.refs.len() {
            proof {
                assert(frame@.idx >= frame@.refs.len());
                assert(closure_run(snap@, start@, res0, rem0, s_pre) == closure_run(
                    snap@,
                    start@,
                    res0,
                    rem0,
                    s1,
                ));
            }
            continue ;
        }
        let refname = frame.refs[frame.idx].clone();
        proof {
            assert(refname@ == frame@.refs[frame@.idx]);
        }
        let cand = resolve_reference(frame.dir.as_str(), refname.as_str());
        let next_frame = Frame { dir: frame.dir, refs: frame.refs, idx: frame.idx + 1 };
        let ghost next_view = next_frame@;
        stack.push(next_frame);
        let ghost s2 = stack.deep_view();
        proof {
            assert(s2 =~= s1.push(next_view));
            assert((s1.push(next_view)).drop_last() =~= s1);
            assert(pending_sum(s2) == pending_sum(s1) + (next_view.refs.len()
                - next_view.idx));
            assert(forall|j: int|
                0 <= j < s2.len() ==> #[trigger] s2[j].idx <= s2[j].refs.len());
        }
        match snap.file_entry(cand.as_str()) {
            None => {
                proof {
                    assert(closure_run(snap@, start@, res0, rem0, s_pre)
                        == ClosureOutcome::NeedFile(cand@));
                }
                return Err(FsNeed::FileText(cand));
            },
            Some(entry) => {
                match entry {
                    None => {
                        // the reference points nowhere: dropped
                        proof {
                            assert(entry.deep_view() == None::<Seq<char>>);
                            assert(closure_run(snap@, start@, res0, rem0, s_pre)
                                == closure_run(snap@, start@, res0, rem0, s2));
                        }
                    },
                    Some(reftext) => {
                        proof {
                            assert(entry.deep_view() == Some(reftext@));
                            assert(file_text_of(snap@.files, cand@) == Some(Some(reftext@)));
                        }
                        // follow only a document not yet visited
                        let mut pos: usize = 0;
                        let mut found = false;
                        while pos < remaining.len() && !found
                            invariant
                                pos <= remaining.len(),
                                rem0 == remaining.deep_view(),
                                rem0.len() == remaining.len(),
                                !found ==> index_in(rem0, cand@, 0) == index_in(
                                    rem0,
                                    cand@,
                                    pos as int,
                                ),
                                found ==> pos < remaining.len() && index_in(rem0, cand@, 0)
                                    == pos as int,
                            decreases remaining.len() - pos, if found {
                                0int
                            } else {
                                1int
                            },
                        {
                            proof {
                                assert(rem0[pos as int] == remaining@[pos as int]@);
                            }
                            if str_eq(remaining[pos].as_str(), cand.as_str()) {
                                found = true;
                                proof {
                                    assert(index_in(rem0, cand@, pos as int) == pos as int);
                                }
                            } else {
                                pos = pos + 1;
                            }
                        }
                        if found {
                            proof {
                                assert(index_in(rem0, cand@, 0) == pos as int);
                            }
                            remaining.remove(pos);
                            proof {
                                assert(remaining.deep_view() =~= rem0.remove(pos as int));
                                assert(file_text_of(snap@.files, cand@) matches Some(
                                    Some(_),
                                ));
                                assert(in_snapshot(snap@, cand@));
                            }
                            let ghost before = result.deep_view();
                            push_unique(&mut result, cand.as_str(), start);
                            proof {
                                if result.deep_view() != before {
                                    lemma_push_keeps(before, cand@, start@, snap@);
                                }
                            }
                            let cdir = parent_dir(cand.as_str());
                            let clisting = match snap.listing(cdir.as_str()) {
                                Some(l) => l,
                                None => {
                                    proof {
                                        assert(closure_run(snap@, start@, res0, rem0, s_pre)
                                            == ClosureOutcome::NeedDir(parent_of(cand@)));
                                    }
                                    return Err(FsNeed::DirListing(cdir));
                                },
                            };
                            push_images(
                                &mut result,
                                cand.as_str(),
                                clisting,
                                start,
                                Ghost(snap@),
                                Ghost(cdir@),
                            );
                            let new_frame = Frame {
                                dir: cdir,
                                refs: extract_references(reftext.as_str()),
                                idx: 0,
                            };
                            let ghost nf = new_frame@;
                            stack.push(new_frame);
                            proof {
                                assert(stack.deep_view() =~= s2.push(nf));
                                assert(forall|j: int|
                                    0 <= j < stack.deep_view().len()
                                        ==> #[trigger] stack.deep_view()[j].idx
                                        <= stack.deep_view()[j].refs.len());
                                assert(result.deep_view() == push_images_s(
                                    push_unique_s(res0, cand@, start@),
                                    cand@,
                                    clisting.deep_view(),
                                    start@,
                                ));
                                assert(closure_run(snap@, start@, res0, rem0, s_pre)
                                    == closure_run(
                                    snap@,
                                    start@,
                                    result.deep_view(),
                                    remaining.deep_view(),
                                    stack.deep_view(),
                                ));
                            }
                        } else {
                            proof {
                                assert(index_in(rem0, cand@, 0) == rem0.len());
                                assert(closure_run(snap@, start@, res0, rem0, s_pre)
                                    == closure_run(snap@, start@, res0, rem0, s2));
                            }
                        }
                    },
                }
            },
        }
    }
}

} // verus!
