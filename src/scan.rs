//! The scanner: a rate-limited pass over every watched root that replaces the
//! list of found images with those under the roots as they stand now.
//!
//! The directory contents come in as a snapshot (`Node`), read from disk by
//! the caller; everything decided about them is decided here.
use vstd::prelude::*;
use crate::extension::{is_image_path, is_supported_image};
use vstd::hash_set::StringHashSet;

verus! {

/// One directory entry as it was read from disk.
#[derive(Debug)]
pub enum Node {
    /// A regular file.
    File { path: String },
    /// A directory and the entries that could be read from it. When reading
    /// failed part way, `read_error` holds the error and `entries` what was read
    /// before the failure.
    Dir { path: String, entries: Vec<Node>, read_error: Option<String> },
    /// Anything that is neither a file nor a directory (a dangling link).
    Other { path: String },
}

/// A problem met during a scan. Neither kind stops the scan: the root or
/// directory concerned is skipped and the rest is scanned.
#[derive(Debug)]
pub enum ScanWarning {
    /// A watched root does not exist.
    DirectoryMissing { path: String },
    /// A directory could not be read, or not to its end.
    TraversalIOError { path: String, error: String },
}

pub enum WarningView {
    DirectoryMissing(Seq<char>),
    TraversalIOError(Seq<char>, Seq<char>),
}

impl View for ScanWarning {
    type V = WarningView;

    open spec fn view(&self) -> WarningView {
        match self {
            ScanWarning::DirectoryMissing { path } => WarningView::DirectoryMissing(path@),
            ScanWarning::TraversalIOError { path, error } => WarningView::TraversalIOError(path@, error@),
        }
    }
}

pub open spec fn paths_view(v: Seq<String>) -> Seq<Seq<char>> {
    v.map_values(|s: String| s@)
}

pub open spec fn warnings_view(v: Seq<ScanWarning>) -> Seq<WarningView> {
    v.map_values(|w: ScanWarning| w@)
}

/// The image files under `entries`, in the order of a depth-first walk that
/// takes the entries of each directory in the order they were read.
pub open spec fn images_in(entries: Seq<Node>) -> Seq<Seq<char>>
    decreases entries,
{
    if entries.len() == 0 {
        Seq::empty()
    } else {
        let rest = images_in(entries.drop_last());
        match entries.last() {
            Node::File { path } => if is_image_path(path@) {
                rest.push(path@)
            } else {
                rest
            },
            Node::Dir { entries: sub, .. } => rest + images_in(sub@),
            Node::Other { .. } => rest,
        }
    }
}

/// The warning for a directory whose reading ended in `read_error`, if it did.
pub open spec fn read_failure(path: String, read_error: Option<String>) -> Seq<WarningView> {
    match read_error {
        Some(e) => seq![WarningView::TraversalIOError(path@, e@)],
        None => Seq::empty(),
    }
}

/// The directories under `entries` that could not be read to their end, in
/// the order in which the walk leaves them.
pub open spec fn failures_in(entries: Seq<Node>) -> Seq<WarningView>
    decreases entries,
{
    if entries.len() == 0 {
        Seq::empty()
    } else {
        let rest = failures_in(entries.drop_last());
        match entries.last() {
            Node::Dir { path, entries: sub, read_error } => rest + failures_in(sub@) + read_failure(path, read_error),
            _ => rest,
        }
    }
}

/// `a` followed by the items of `b` that it does not hold yet, each once, in
/// the order in which they first occur in `b`.
pub open spec fn append_unique(a: Seq<Seq<char>>, b: Seq<Seq<char>>) -> Seq<Seq<char>>
    decreases b.len(),
{
    if b.len() == 0 {
        a
    } else {
        let r = append_unique(a, b.drop_last());
        if r.contains(b.last()) {
            r
        } else {
            r.push(b.last())
        }
    }
}

proof fn lemma_append_unique_concat(a: Seq<Seq<char>>, b: Seq<Seq<char>>, c: Seq<Seq<char>>)
    ensures
        append_unique(a, b + c) == append_unique(append_unique(a, b), c),
    decreases c.len(),
{
    if c.len() == 0 {
        assert(b + c =~= b);
    } else {
        lemma_append_unique_concat(a, b, c.drop_last());
        assert((b + c).drop_last() =~= b + c.drop_last());
        assert((b + c).last() == c.last());
    }
}

proof fn lemma_append_unique_contains(a: Seq<Seq<char>>, b: Seq<Seq<char>>, p: Seq<char>)
    ensures
        append_unique(a, b).contains(p) <==> (a.contains(p) || b.contains(p)),
        a.no_duplicates() ==> append_unique(a, b).no_duplicates(),
    decreases b.len(),
{
    if b.len() > 0 {
        let rest = b.drop_last();
        lemma_append_unique_contains(a, rest, p);
        lemma_append_unique_contains(a, rest, b.last());
        let r = append_unique(a, rest);
        lemma_concat_contains(rest, seq![b.last()], p);
        assert(rest + seq![b.last()] =~= b);
        assert(seq![b.last()].contains(p) <==> b.last() == p) by {
            if b.last() == p {
                assert(seq![b.last()][0] == p);
            }
        }
        if !r.contains(b.last()) {
            lemma_concat_contains(r, seq![b.last()], p);
            assert(r.push(b.last()) =~= r + seq![b.last()]);
            if a.no_duplicates() {
                assert forall|i: int, j: int|
                    0 <= i < r.len() + 1 && 0 <= j < r.len() + 1 && i != j implies r.push(b.last())[i]
                    != r.push(b.last())[j] by {
                    if i == r.len() {
                        assert(r[j] == r.push(b.last())[j]);
                    }
                    if j == r.len() {
                        assert(r[i] == r.push(b.last())[i]);
                    }
                }
            }
        }
    }
}

/// Appends to `images` every image file under `entries`, and to `warnings`
/// one warning, with its error, for each directory under them that could not
/// be read to its end; a directory that failed keeps what was read from it
/// before.
pub fn collect_images_recursive(
    entries: &Vec<Node>,
    images: &mut Vec<String>,
    warnings: &mut Vec<ScanWarning>,
)
    ensures
        paths_view(final(images)@) == paths_view(old(images)@) + images_in(entries@),
        warnings_view(final(warnings)@) == warnings_view(old(warnings)@) + failures_in(entries@),
    decreases entries@,
{
    let ghost images0 = paths_view(images@);
    let ghost warnings0 = warnings_view(warnings@);
    let mut i: usize = 0;
    while i < entries.len()
        invariant
            i <= entries@.len(),
            paths_view(images@) == images0 + images_in(entries@.take(i as int)),
            warnings_view(warnings@) == warnings0 + failures_in(entries@.take(i as int)),
        decreases entries@.len() - i,
    {
        let ghost before = entries@.take(i as int);
        assert(entries@.take(i + 1).drop_last() =~= before);
        assert(entries@.take(i + 1).last() == entries@[i as int]);
        match &entries[i] {
            Node::File { path } => {
                if is_supported_image(path.as_str()) {
                    let ghost prev = images@;
                    images.push(path.clone());
                    assert(paths_view(images@) =~= paths_view(prev).push(path@));
                    assert(images_in(entries@.take(i + 1)) == images_in(before).push(path@));
                    assert(paths_view(images@) =~= images0 + images_in(entries@.take(i + 1)));
                }
            },
            Node::Dir { path, entries: sub, read_error } => {
                collect_images_recursive(sub, images, warnings);
                assert(paths_view(images@) =~= images0 + images_in(entries@.take(i + 1)));
                push_read_failure(path, read_error, warnings);
                assert(warnings_view(warnings@) =~= warnings0 + failures_in(entries@.take(i + 1)));
            },
            Node::Other { .. } => {},
        }
        i = i + 1;
    }
    assert(entries@.take(i as int) =~= entries@);
}

fn push_read_failure(path: &String, read_error: &Option<String>, warnings: &mut Vec<ScanWarning>)
    ensures
        warnings_view(final(warnings)@) == warnings_view(old(warnings)@) + read_failure(*path, *read_error),
{
    let ghost prev = warnings@;
    match read_error {
        Some(e) => {
            warnings.push(ScanWarning::TraversalIOError { path: path.clone(), error: e.clone() });
            assert(warnings_view(warnings@) =~= warnings_view(prev) + read_failure(*path, *read_error));
        },
        None => {
            assert(warnings_view(warnings@) =~= warnings_view(prev) + read_failure(*path, *read_error));
        },
    }
}

/// Appends to `found` each path of `more` that it does not hold yet; `seen`
/// holds the paths of `found`.
fn merge_unique(found: &mut Vec<String>, seen: &mut StringHashSet, more: &Vec<String>)
    requires
        forall|x: Seq<char>| old(seen)@.contains(x) <==> paths_view(old(found)@).contains(x),
    ensures
        paths_view(final(found)@) == append_unique(paths_view(old(found)@), paths_view(more@)),
        forall|x: Seq<char>| final(seen)@.contains(x) <==> paths_view(final(found)@).contains(x),
{
    let ghost found0 = paths_view(found@);
    let mut i: usize = 0;
    while i < more.len()
        invariant
            i <= more@.len(),
            paths_view(found@) == append_unique(found0, paths_view(more@).take(i as int)),
            forall|x: Seq<char>| seen@.contains(x) <==> paths_view(found@).contains(x),
        decreases more@.len() - i,
    {
        let ghost prev = found@;
        let ghost seen_before = seen@;
        let ghost taken = paths_view(more@).take(i + 1);
        assert(taken.drop_last() =~= paths_view(more@).take(i as int));
        assert(taken.last() == more@[i as int]@);
        if !seen.contains(more[i].as_str()) {
            assert(!paths_view(prev).contains(more@[i as int]@));
            found.push(more[i].clone());
            seen.insert(more[i].clone());
            let ghost x0 = more@[i as int]@;
            assert(paths_view(found@) =~= paths_view(prev).push(x0));
            assert forall|x: Seq<char>| seen@.contains(x) <==> paths_view(found@).contains(x) by {
                if paths_view(prev).contains(x) {
                    let w = choose|w: int| 0 <= w < paths_view(prev).len() && #[trigger] paths_view(prev)[w] == x;
                    assert(paths_view(found@)[w] == x);
                }
                if x == x0 {
                    assert(paths_view(found@)[prev.len() as int] == x);
                }
                if paths_view(found@).contains(x) {
                    let w = choose|w: int| 0 <= w < paths_view(found@).len() && #[trigger] paths_view(found@)[w] == x;
                    if w < prev.len() {
                        assert(paths_view(prev)[w] == x);
                    }
                }
            }
        } else {
            assert(paths_view(prev).contains(more@[i as int]@));
        }
        i = i + 1;
    }
    assert(paths_view(more@).take(i as int) =~= paths_view(more@));
}

/// The images found under one watched root. A root that is missing, or is
/// not a directory, contributes none.
pub open spec fn root_images(root: Option<Node>) -> Seq<Seq<char>> {
    match root {
        Some(Node::Dir { entries, .. }) => images_in(entries@),
        _ => Seq::empty(),
    }
}

/// The warnings for one watched root `dir`: a missing root gives one, a
/// present one gives those of its walk.
pub open spec fn root_warnings(dir: Seq<char>, root: Option<Node>) -> Seq<WarningView> {
    match root {
        None => seq![WarningView::DirectoryMissing(dir)],
        Some(Node::Dir { path, entries, read_error }) => failures_in(entries@) + read_failure(path, read_error),
        Some(_) => Seq::empty(),
    }
}

/// The images found under all roots, root by root in order.
pub open spec fn scan_images(roots: Seq<Option<Node>>) -> Seq<Seq<char>>
    decreases roots.len(),
{
    if roots.len() == 0 {
        Seq::empty()
    } else {
        scan_images(roots.drop_last()) + root_images(roots.last())
    }
}

/// What a scan finds: the images under all roots, each path once, in the
/// order in which the walk first meets it.
pub open spec fn found_images(roots: Seq<Option<Node>>) -> Seq<Seq<char>> {
    append_unique(Seq::empty(), scan_images(roots))
}

/// The warnings of a scan of the roots named `dirs`, root by root in order.
pub open spec fn scan_warnings(dirs: Seq<Seq<char>>, roots: Seq<Option<Node>>) -> Seq<WarningView>
    decreases roots.len(),
{
    if roots.len() == 0 {
        Seq::empty()
    } else {
        scan_warnings(dirs, roots.drop_last()) + root_warnings(dirs[roots.len() - 1], roots.last())
    }
}

/// `p` is the path of a file somewhere under `entries`.
pub open spec fn file_under(entries: Seq<Node>, p: Seq<char>) -> bool
    decreases entries,
{
    entries.len() > 0 && (file_under(entries.drop_last(), p) || match entries.last() {
        Node::File { path } => path@ == p,
        Node::Dir { entries: sub, .. } => file_under(sub@, p),
        Node::Other { .. } => false,
    })
}

/// `p` is the path of a file under the watched root `root`, which exists and
/// is a directory.
pub open spec fn file_under_root(root: Option<Node>, p: Seq<char>) -> bool {
    match root {
        Some(Node::Dir { entries, .. }) => file_under(entries@, p),
        _ => false,
    }
}

proof fn lemma_concat_contains(a: Seq<Seq<char>>, b: Seq<Seq<char>>, p: Seq<char>)
    ensures
        (a + b).contains(p) <==> (a.contains(p) || b.contains(p)),
{
    if a.contains(p) {
        let i = choose|i: int| 0 <= i < a.len() && a[i] == p;
        assert((a + b)[i] == p);
    }
    if b.contains(p) {
        let i = choose|i: int| 0 <= i < b.len() && b[i] == p;
        assert((a + b)[a.len() + i] == p);
    }
    if (a + b).contains(p) {
        let i = choose|i: int| 0 <= i < (a + b).len() && (a + b)[i] == p;
        if i < a.len() {
            assert(a[i] == p);
        } else {
            assert(b[i - a.len()] == p);
        }
    }
}

proof fn lemma_images_in(entries: Seq<Node>, p: Seq<char>)
    ensures
        images_in(entries).contains(p) <==> (is_image_path(p) && file_under(entries, p)),
    decreases entries,
{
    if entries.len() > 0 {
        let rest = entries.drop_last();
        lemma_images_in(rest, p);
        match entries.last() {
            Node::File { path } => {
                if is_image_path(path@) {
                    lemma_concat_contains(images_in(rest), seq![path@], p);
                    assert(images_in(rest).push(path@) =~= images_in(rest) + seq![path@]);
                    assert(seq![path@].contains(p) <==> path@ == p) by {
                        if path@ == p {
                            assert(seq![path@][0] == p);
                        }
                    }
                }
            },
            Node::Dir { entries: sub, .. } => {
                lemma_images_in(sub@, p);
                lemma_concat_contains(images_in(rest), images_in(sub@), p);
            },
            Node::Other { .. } => {},
        }
    }
}

proof fn lemma_scan_images(roots: Seq<Option<Node>>, p: Seq<char>)
    ensures
        scan_images(roots).contains(p) <==> (is_image_path(p) && exists|i: int|
            0 <= i < roots.len() && file_under_root(#[trigger] roots[i], p)),
    decreases roots.len(),
{
    if roots.len() > 0 {
        let rest = roots.drop_last();
        lemma_scan_images(rest, p);
        lemma_concat_contains(scan_images(rest), root_images(roots.last()), p);
        match roots.last() {
            Some(Node::Dir { entries, .. }) => lemma_images_in(entries@, p),
            _ => {},
        }
        if exists|i: int| 0 <= i < roots.len() && file_under_root(#[trigger] roots[i], p) {
            let i = choose|i: int| 0 <= i < roots.len() && file_under_root(#[trigger] roots[i], p);
            if i < rest.len() {
                assert(rest[i] == roots[i]);
            }
        }
        if exists|i: int| 0 <= i < rest.len() && file_under_root(#[trigger] rest[i], p) {
            let i = choose|i: int| 0 <= i < rest.len() && file_under_root(#[trigger] rest[i], p);
            assert(roots[i] == rest[i]);
        }
        if file_under_root(roots.last(), p) {
            assert(roots[roots.len() - 1] == roots.last());
        }
    }
}

/// After a scan, a path is among the found images exactly when it names a
/// file with a supported extension under one of the roots that exist and are
/// directories; roots that are missing take nothing away from the others.
/// No path is found twice.
pub proof fn lemma_found_is_images_under_roots(roots: Seq<Option<Node>>, p: Seq<char>)
    ensures
        found_images(roots).contains(p) <==> (is_image_path(p) && exists|i: int|
            0 <= i < roots.len() && file_under_root(#[trigger] roots[i], p)),
        found_images(roots).no_duplicates(),
{
    lemma_scan_images(roots, p);
    lemma_append_unique_contains(Seq::empty(), scan_images(roots), p);
}

proof fn lemma_failures_are_io_errors(entries: Seq<Node>)
    ensures
        forall|k: int| 0 <= k < failures_in(entries).len() ==> #[trigger] failures_in(entries)[k] is TraversalIOError,
    decreases entries,
{
    if entries.len() > 0 {
        lemma_failures_are_io_errors(entries.drop_last());
        match entries.last() {
            Node::Dir { entries: sub, .. } => lemma_failures_are_io_errors(sub@),
            _ => {},
        }
    }
}

/// A scan warns that a directory is missing exactly for the watched roots
/// that do not exist, naming each such root; a missing root adds no image.
pub proof fn lemma_missing_roots_are_warned(dirs: Seq<Seq<char>>, roots: Seq<Option<Node>>, d: Seq<char>)
    requires
        dirs.len() == roots.len(),
    ensures
        scan_warnings(dirs, roots).contains(WarningView::DirectoryMissing(d)) <==> exists|i: int|
            0 <= i < roots.len() && #[trigger] roots[i] is None && dirs[i] == d,
        forall|i: int| 0 <= i < roots.len() && #[trigger] roots[i] is None ==> root_images(roots[i]).len() == 0,
    decreases roots.len(),
{
    if roots.len() > 0 {
        let n = roots.len() - 1;
        let rest = roots.drop_last();
        lemma_missing_roots_are_warned(dirs.drop_last(), rest, d);
        let w = WarningView::DirectoryMissing(d);
        let before = scan_warnings(dirs, rest);
        assert(before == scan_warnings(dirs.drop_last(), rest)) by {
            lemma_scan_warnings_prefix(dirs, rest);
        }
        let last = root_warnings(dirs[n], roots.last());
        assert(scan_warnings(dirs, roots) == before + last);
        assert((before + last).contains(w) <==> (before.contains(w) || last.contains(w))) by {
            if before.contains(w) {
                let k = choose|k: int| 0 <= k < before.len() && before[k] == w;
                assert((before + last)[k] == w);
            }
            if last.contains(w) {
                let k = choose|k: int| 0 <= k < last.len() && last[k] == w;
                assert((before + last)[before.len() + k] == w);
            }
            if (before + last).contains(w) {
                let k = choose|k: int| 0 <= k < (before + last).len() && (before + last)[k] == w;
                if k < before.len() {
                    assert(before[k] == w);
                } else {
                    assert(last[k - before.len()] == w);
                }
            }
        }
        match roots.last() {
            None => {
                assert(last[0] == WarningView::DirectoryMissing(dirs[n]));
                assert(last.contains(w) <==> dirs[n] == d);
            },
            Some(Node::Dir { path, entries, read_error }) => {
                lemma_failures_are_io_errors(entries@);
                assert forall|k: int| 0 <= k < last.len() implies last[k] != w by {
                    if k < failures_in(entries@).len() {
                        assert(failures_in(entries@)[k] is TraversalIOError);
                    }
                }
            },
            Some(_) => {},
        }
        if exists|i: int| 0 <= i < roots.len() && #[trigger] roots[i] is None && dirs[i] == d {
            let i = choose|i: int| 0 <= i < roots.len() && #[trigger] roots[i] is None && dirs[i] == d;
            if i < n {
                assert(rest[i] is None && dirs.drop_last()[i] == d);
            }
        }
        if exists|i: int| 0 <= i < rest.len() && #[trigger] rest[i] is None && dirs.drop_last()[i] == d {
            let i = choose|i: int| 0 <= i < rest.len() && #[trigger] rest[i] is None && dirs.drop_last()[i] == d;
            assert(roots[i] is None && dirs[i] == d);
        }
    }
}

proof fn lemma_scan_warnings_prefix(dirs: Seq<Seq<char>>, roots: Seq<Option<Node>>)
    requires
        roots.len() < dirs.len(),
    ensures
        scan_warnings(dirs, roots) == scan_warnings(dirs.drop_last(), roots),
    decreases roots.len(),
{
    if roots.len() > 0 {
        lemma_scan_warnings_prefix(dirs, roots.drop_last());
    }
}

/// The watched roots, the images found by the last scan, and when it ran.
#[derive(Debug)]
pub struct WatchedDirs {
    /// The watched roots.
    pub dirs: Vec<String>,
    /// The image files found by the most recent scan, each once.
    pub imgs: Vec<String>,
    /// The time of the most recent scan, if there was one.
    pub last_scan: Option<u64>,
    /// The least time between two scans.
    pub scan_interval: u64,
}

/// The least time between two scans unless configured otherwise.
pub const DEFAULT_SCAN_INTERVAL: u64 = 5;

impl WatchedDirs {
    /// A scan is due when none has run yet, or when at least the scan
    /// interval has passed since the last one.
    pub open spec fn scan_due_spec(&self, now: u64) -> bool {
        match self.last_scan {
            None => true,
            Some(t) => t <= now && now - t >= self.scan_interval,
        }
    }

    /// What one step of the scanner at time `now` does: when a scan is due it
    /// replaces the found images by those of `roots` and records `now`;
    /// otherwise it changes nothing.
    pub open spec fn scan_step(self, now: u64, roots: Seq<Option<Node>>, next: WatchedDirs) -> bool {
        if self.scan_due_spec(now) {
            &&& next.dirs == self.dirs
            &&& next.scan_interval == self.scan_interval
            &&& next.last_scan == Some(now)
            &&& paths_view(next.imgs@) == found_images(roots)
        } else {
            next == self
        }
    }

    /// Watches `dirs`, with nothing found yet and no scan run.
    pub fn new(dirs: Vec<String>, scan_interval: u64) -> (r: WatchedDirs)
        ensures
            r.dirs == dirs,
            r.imgs@.len() == 0,
            r.last_scan.is_none(),
            r.scan_interval == scan_interval,
    {
        WatchedDirs { dirs, imgs: Vec::new(), last_scan: None, scan_interval }
    }

    /// Whether a scan at time `now` would run.
    pub fn scan_due(&self, now: u64) -> (r: bool)
        ensures
            r == self.scan_due_spec(now),
    {
        match self.last_scan {
            None => true,
            Some(t) => t <= now && now - t >= self.scan_interval,
        }
    }

    /// Whether there is anything to place: some image was found.
    pub fn should_run(&self) -> (r: bool)
        ensures
            r == (self.imgs@.len() > 0),
    {
        !self.imgs.is_empty()
    }

    /// Replaces the found images by those under the roots, where `roots[i]` is
    /// what was read of `dirs[i]` (`None` when it does not exist). Returns
    /// the warnings of the pass; the pass itself always completes.
    pub fn scan(&mut self, roots: &Vec<Option<Node>>) -> (warnings: Vec<ScanWarning>)
        requires
            roots@.len() == old(self).dirs@.len(),
        ensures
            final(self).dirs == old(self).dirs,
            final(self).last_scan == old(self).last_scan,
            final(self).scan_interval == old(self).scan_interval,
            paths_view(final(self).imgs@) == found_images(roots@),
            warnings_view(warnings@) == scan_warnings(paths_view(old(self).dirs@), roots@),
    {
        self.imgs.clear();
        let mut seen = StringHashSet::new();
        assert(paths_view(self.imgs@) =~= found_images(roots@.take(0)));
        let mut warnings: Vec<ScanWarning> = Vec::new();
        let mut i: usize = 0;
        while i < roots.len()
            invariant
                i <= roots@.len(),
                roots@.len() == self.dirs@.len(),
                self.dirs == old(self).dirs,
                self.last_scan == old(self).last_scan,
                self.scan_interval == old(self).scan_interval,
                paths_view(self.imgs@) == found_images(roots@.take(i as int)),
                forall|x: Seq<char>| seen@.contains(x) <==> paths_view(self.imgs@).contains(x),
                warnings_view(warnings@) == scan_warnings(paths_view(self.dirs@), roots@.take(i as int)),
            decreases roots@.len() - i,
        {
            let ghost before = roots@.take(i as int);
            let ghost prev_w = warnings@;
            assert(roots@.take(i + 1).drop_last() =~= before);
            assert(roots@.take(i + 1).last() == roots@[i as int]);
            match &roots[i] {
                None => {
                    warnings.push(ScanWarning::DirectoryMissing { path: self.dirs[i].clone() });
                    assert(warnings_view(warnings@) =~= warnings_view(prev_w).push(
                        WarningView::DirectoryMissing(self.dirs@[i as int]@),
                    ));
                    assert(scan_images(roots@.take(i + 1)) =~= scan_images(before));
                },
                Some(Node::Dir { path, entries, read_error }) => {
                    let mut under_root: Vec<String> = Vec::new();
                    collect_images_recursive(entries, &mut under_root, &mut warnings);
                    assert(paths_view(under_root@) =~= Seq::<Seq<char>>::empty() + images_in(entries@));
                    merge_unique(&mut self.imgs, &mut seen, &under_root);
                    proof {
                        lemma_append_unique_concat(Seq::empty(), scan_images(before), images_in(entries@));
                    }
                    push_read_failure(path, read_error, &mut warnings);
                    assert(warnings_view(warnings@) =~= scan_warnings(paths_view(self.dirs@), roots@.take(i + 1)));
                },
                Some(_) => {
                    assert(scan_images(roots@.take(i + 1)) =~= scan_images(before));
                    assert(warnings_view(warnings@) =~= scan_warnings(paths_view(self.dirs@), roots@.take(i + 1)));
                },
            }
            i = i + 1;
        }
        assert(roots@.take(i as int) =~= roots@);
        warnings
    }

    /// One step of the scanner at time `now`: when a scan is due, scans the
    /// roots as read into `roots` and returns its warnings; otherwise leaves
    /// everything as it is and returns `None` (`roots` is then not looked at).
    pub fn scan_directories_system(&mut self, now: u64, roots: &Vec<Option<Node>>) -> (r: Option<Vec<ScanWarning>>)
        requires
            old(self).scan_due_spec(now) ==> roots@.len() == old(self).dirs@.len(),
        ensures
            old(self).scan_step(now, roots@, *final(self)),
            r.is_some() == old(self).scan_due_spec(now),
            r matches Some(w) ==> warnings_view(w@) == scan_warnings(paths_view(old(self).dirs@), roots@),
    {
        if !self.scan_due(now) {
            return None;
        }
        let warnings = self.scan(roots);
        self.last_scan = Some(now);
        Some(warnings)
    }
}

/// A scan step that comes less than the scan interval after a scan that ran
/// leaves the found images as that scan left them.
pub proof fn lemma_rescan_within_interval_keeps_found(
    s0: WatchedDirs,
    s1: WatchedDirs,
    s2: WatchedDirs,
    now1: u64,
    now2: u64,
    roots1: Seq<Option<Node>>,
    roots2: Seq<Option<Node>>,
)
    requires
        s0.scan_due_spec(now1),
        s0.scan_step(now1, roots1, s1),
        s1.scan_step(now2, roots2, s2),
        now1 <= now2 < now1 + s0.scan_interval,
    ensures
        s2 == s1,
{
}

} // verus!
