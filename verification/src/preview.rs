//! Preview resolution: choosing six representative icons per theme and
//! validating the provenance of every resolved icon path.
//!
//! The icon-lookup system answers a (name, size) probe with the nearest
//! matching file path across any installed theme, so a resolved path must be
//! checked to really come from the target theme's own directory or one of
//! its inherited directories; the check walks the path up to the directory
//! named `icons` and compares the component inside that boundary against the
//! valid directories. The caller performs the lookups — with the probed
//! theme temporarily set as the process-wide active theme — and hands the
//! answers in; every decision about them is made and verified here.

use vstd::prelude::*;

use crate::discovery::{components, nonempty_parts};
use crate::text::{contains_string, split_on, split_string, str_eq};

verus! {

/// Number of preview categories (folder, home, text, image, audio, video).
pub const CATEGORY_COUNT: usize = 6;

/// Number of lookup attempts per category: the primary icon name at three
/// sizes, then the alternate name at the same three sizes.
pub const ATTEMPTS_PER_CATEGORY: usize = 6;

/// The fixed pixel size of the generic fallback thumbnail.
pub const THUMBNAIL_SIZE: u16 = 32;

/// A resolved preview icon.
pub enum IconHandle {
    /// An icon file whose path passed provenance validation.
    Path(String),
    /// A named lookup at a fixed size: the theme-agnostic fallback used when
    /// no attempt of a category is accepted.
    Named(String, u16),
}

/// The mathematical value of an [`IconHandle`].
pub enum IconHandleView {
    Path(Seq<char>),
    Named(Seq<char>, u16),
}

impl View for IconHandle {
    type V = IconHandleView;

    open spec fn view(&self) -> IconHandleView {
        match self {
            IconHandle::Path(p) => IconHandleView::Path(p@),
            IconHandle::Named(n, s) => IconHandleView::Named(n@, *s),
        }
    }
}

/// The process-wide active icon theme of the lookup system, modelled as a
/// plain value owned by the caller.
pub struct ActiveIconTheme {
    pub name: String,
}

/// The primary icon name of category `c`.
pub open spec fn spec_primary(c: int) -> Seq<char> {
    if c == 0 {
        "folder"@
    } else if c == 1 {
        "user-home"@
    } else if c == 2 {
        "text-x-generic"@
    } else if c == 3 {
        "image-x-generic"@
    } else if c == 4 {
        "audio-x-generic"@
    } else {
        "video-x-generic"@
    }
}

/// The alternate (symbolic) icon name of category `c`.
pub open spec fn spec_alternate(c: int) -> Seq<char> {
    if c == 0 {
        "folder-symbolic"@
    } else if c == 1 {
        "user-home-symbolic"@
    } else if c == 2 {
        "text-x-generic-symbolic"@
    } else if c == 3 {
        "images-x-generic-symbolic"@
    } else if c == 4 {
        "audio-x-generic-symbolic"@
    } else {
        "video-x-generic-symbolic"@
    }
}

/// The icon name probed by attempt `a` of category `c`: three attempts with
/// the primary name, then three with the alternate.
pub open spec fn spec_attempt_name(c: int, a: int) -> Seq<char> {
    if a < 3 {
        spec_primary(c)
    } else {
        spec_alternate(c)
    }
}

/// The pixel size probed by attempt `a`: ascending within each name.
pub open spec fn spec_attempt_size(a: int) -> u16 {
    if a == 0 || a == 3 {
        32
    } else if a == 1 || a == 4 {
        48
    } else {
        64
    }
}

/// The primary icon name of category `c`.
pub fn primary_name(c: usize) -> (r: &'static str)
    requires
        c < CATEGORY_COUNT,
    ensures
        r@ == spec_primary(c as int),
{
    match c {
        0 => "folder",
        1 => "user-home",
        2 => "text-x-generic",
        3 => "image-x-generic",
        4 => "audio-x-generic",
        _ => "video-x-generic",
    }
}

/// The alternate icon name of category `c`.
pub fn alternate_name(c: usize) -> (r: &'static str)
    requires
        c < CATEGORY_COUNT,
    ensures
        r@ == spec_alternate(c as int),
{
    match c {
        0 => "folder-symbolic",
        1 => "user-home-symbolic",
        2 => "text-x-generic-symbolic",
        3 => "images-x-generic-symbolic",
        4 => "audio-x-generic-symbolic",
        _ => "video-x-generic-symbolic",
    }
}

/// The icon name probed by attempt `a` of category `c`.
pub fn attempt_name(c: usize, a: usize) -> (r: &'static str)
    requires
        c < CATEGORY_COUNT,
        a < ATTEMPTS_PER_CATEGORY,
    ensures
        r@ == spec_attempt_name(c as int, a as int),
{
    if a < 3 {
        primary_name(c)
    } else {
        alternate_name(c)
    }
}

/// The pixel size probed by attempt `a`.
pub fn attempt_size(a: usize) -> (r: u16)
    requires
        a < ATTEMPTS_PER_CATEGORY,
    ensures
        r == spec_attempt_size(a as int),
{
    if a == 0 || a == 3 {
        32
    } else if a == 1 || a == 4 {
        48
    } else {
        64
    }
}

/// The directory name a resolved icon path is attributed to, walking up from
/// the leaf: the component immediately inside the deepest directory named
/// `icons`, or the topmost component when no such boundary exists.
pub open spec fn dir_after_icons(cs: Seq<Seq<char>>) -> Seq<char>
    recommends
        cs.len() >= 1,
    decreases cs.len(),
{
    if cs.len() <= 1 {
        cs[0]
    } else if cs[cs.len() - 2] == "icons"@ {
        cs[cs.len() - 1]
    } else {
        dir_after_icons(cs.drop_last())
    }
}

/// The theme directory a resolved path originates from, or `None` for a
/// path without components.
pub open spec fn resolving_theme_dir(path: Seq<char>) -> Option<Seq<char>> {
    let cs = components(path);
    if cs.len() == 0 {
        None
    } else {
        Some(dir_after_icons(cs))
    }
}

/// Provenance validation: the path's resolving theme directory is one of the
/// valid directories.
pub open spec fn path_accepted(path: Seq<char>, valid: Seq<Seq<char>>) -> bool {
    match resolving_theme_dir(path) {
        Some(d) => valid.contains(d),
        None => false,
    }
}

/// The non-empty `/`-separated components of `path`, as owned strings.
fn path_components(path: &str) -> (r: Vec<String>)
    ensures
        r.deep_view() == components(path@),
{
    let parts = split_string(path, '/');
    let ghost pd = parts.deep_view();
    let mut comps: Vec<String> = Vec::new();
    let mut i: usize = 0;
    proof {
        reveal_with_fuel(Seq::filter, 2);
        assert(pd.take(0) =~= Seq::<Seq<char>>::empty());
        assert(comps.deep_view() =~= nonempty_parts(pd.take(0)));
    }
    while i < parts.len()
        invariant
            i <= parts.len(),
            pd == parts.deep_view(),
            pd == split_on(path@, '/'),
            pd.len() == parts.len(),
            comps.deep_view() == nonempty_parts(pd.take(i as int)),
        decreases parts.len() - i,
    {
        let ghost pre = comps.deep_view();
        let ghost t = pd.take(i as int + 1);
        proof {
            assert(t.drop_last() =~= pd.take(i as int));
            assert(t.last() == pd[i as int]);
            assert(pd[i as int] == parts@[i as int]@);
        }
        if !parts[i].as_str().is_empty() {
            comps.push(parts[i].clone());
            proof {
                reveal_with_fuel(Seq::filter, 2);
                assert(nonempty_parts(t) == nonempty_parts(pd.take(i as int)).push(t.last()));
                assert(comps.deep_view() =~= pre.push(parts@[i as int]@));
            }
        } else {
            proof {
                reveal_with_fuel(Seq::filter, 2);
                assert(nonempty_parts(t) == nonempty_parts(pd.take(i as int)));
            }
        }
        i = i + 1;
    }
    proof {
        assert(pd.take(parts.len() as int) =~= pd);
    }
    comps
}

proof fn lemma_dir_after_icons_at(cs: Seq<Seq<char>>, j: int)
    requires
        0 <= j <= cs.len() - 2,
        cs[j] == "icons"@,
        forall|k: int| j < k <= cs.len() - 2 ==> cs[k] != "icons"@,
    ensures
        dir_after_icons(cs) == cs[j + 1],
    decreases cs.len(),
{
    if j == cs.len() - 2 {
    } else {
        assert(cs[cs.len() - 2] != "icons"@);
        let t = cs.drop_last();
        assert(forall|k: int| 0 <= k < t.len() ==> #[trigger] t[k] == cs[k]);
        lemma_dir_after_icons_at(t, j);
    }
}

proof fn lemma_dir_after_icons_none(cs: Seq<Seq<char>>)
    requires
        cs.len() >= 1,
        forall|k: int| 0 <= k <= cs.len() - 2 ==> cs[k] != "icons"@,
    ensures
        dir_after_icons(cs) == cs[0],
    decreases cs.len(),
{
    if cs.len() > 1 {
        let t = cs.drop_last();
        assert(forall|k: int| 0 <= k < t.len() ==> #[trigger] t[k] == cs[k]);
        lemma_dir_after_icons_none(t);
    }
}

/// The theme directory the resolved icon path `path` is attributed to.
pub fn resolving_dir_of(path: &str) -> (r: Option<String>)
    ensures
        r.deep_view() == resolving_theme_dir(path@),
{
    let comps = path_components(path);
    let ghost cs = components(path@);
    let n = comps.len();
    if n == 0 {
        return None;
    }
    let mut j: usize = n - 1;
    while j > 0
        invariant
            j <= n - 1,
            n == comps.len(),
            n == cs.len(),
            cs == comps.deep_view(),
            cs == components(path@),
            n >= 1,
            forall|k: int| j <= k <= n - 2 ==> cs[k] != "icons"@,
        decreases j,
    {
        if str_eq(comps[j - 1].as_str(), "icons") {
            proof {
                assert(cs[j - 1] == comps@[j - 1]@);
                lemma_dir_after_icons_at(cs, j - 1);
                assert(cs[j as int] == comps@[j as int]@);
            }
            return Some(comps[j].clone());
        }
        proof {
            assert(cs[j - 1] == comps@[j - 1]@);
        }
        j = j - 1;
    }
    proof {
        lemma_dir_after_icons_none(cs);
        assert(cs[0] == comps@[0]@);
    }
    Some(comps[0].clone())
}

/// Whether the resolved icon path `path` passes provenance validation
/// against `valid`.
pub fn path_is_accepted(path: &str, valid: &Vec<String>) -> (r: bool)
    ensures
        r == path_accepted(path@, valid.deep_view()),
{
    match resolving_dir_of(path) {
        Some(d) => contains_string(valid, d.as_str()),
        None => false,
    }
}

/// The lookup answers of one category, missing rows standing for failed
/// lookups.
pub open spec fn answer_row(answers: Seq<Seq<Option<Seq<char>>>>, c: int) -> Seq<
    Option<Seq<char>>,
> {
    if 0 <= c < answers.len() {
        answers[c]
    } else {
        Seq::empty()
    }
}

/// The path attempt `a` resolved to, a missing entry standing for a failed
/// lookup.
pub open spec fn attempt_answer(row: Seq<Option<Seq<char>>>, a: int) -> Option<Seq<char>> {
    if 0 <= a < row.len() {
        row[a]
    } else {
        None
    }
}

/// The path of the first attempt at or after `a` that resolved and passed
/// provenance validation, if any.
pub open spec fn first_accepted_from(
    row: Seq<Option<Seq<char>>>,
    valid: Seq<Seq<char>>,
    a: int,
) -> Option<Seq<char>>
    decreases 6 - a,
{
    if a < 0 || a >= 6 {
        None
    } else {
        match attempt_answer(row, a) {
            Some(p) => {
                if path_accepted(p, valid) {
                    Some(p)
                } else {
                    first_accepted_from(row, valid, a + 1)
                }
            },
            None => first_accepted_from(row, valid, a + 1),
        }
    }
}

/// The preview resolved for category `c`: the first accepted attempt's
/// path, or the generic fallback — the category's primary name at the
/// thumbnail size — when no attempt is accepted.
pub open spec fn category_preview(
    c: int,
    valid: Seq<Seq<char>>,
    answers: Seq<Seq<Option<Seq<char>>>>,
) -> IconHandleView {
    match first_accepted_from(answer_row(answers, c), valid, 0) {
        Some(p) => IconHandleView::Path(p),
        None => IconHandleView::Named(spec_primary(c), 32),
    }
}

fn resolve_category(c: usize, valid: &Vec<String>, answers: &Vec<Vec<Option<String>>>) -> (h:
    IconHandle)
    requires
        c < CATEGORY_COUNT,
    ensures
        h@ == category_preview(c as int, valid.deep_view(), answers.deep_view()),
{
    let ghost row = answer_row(answers.deep_view(), c as int);
    let mut a: usize = 0;
    while a < ATTEMPTS_PER_CATEGORY
        invariant
            a <= 6,
            c < 6,
            row == answer_row(answers.deep_view(), c as int),
            first_accepted_from(row, valid.deep_view(), 0) == first_accepted_from(
                row,
                valid.deep_view(),
                a as int,
            ),
        decreases 6 - a,
    {
        proof {
            if (c as int) < answers.deep_view().len() {
                assert(answers.deep_view()[c as int] == answers@[c as int].deep_view());
            }
        }
        if c < answers.len() && a < answers[c].len() {
            proof {
                assert(row[a as int] == answers@[c as int]@[a as int].deep_view());
            }
            if let Some(p) = &answers[c][a] {
                if path_is_accepted(p.as_str(), valid) {
                    proof {
                        assert(attempt_answer(row, a as int) == Some(p@));
                    }
                    return IconHandle::Path(p.clone());
                }
            }
        } else {
            proof {
                assert(attempt_answer(row, a as int) is None);
            }
        }
        a = a + 1;
    }
    IconHandle::Named(primary_name(c).to_owned(), THUMBNAIL_SIZE)
}

/// Resolves the six preview icons of one theme from the caller's lookup
/// answers.
///
/// `theme_id` is the directory id of the probed theme, `valid_dirs` its
/// inheritance chain, and `answers[c][a]` the path that lookup attempt `a`
/// of category `c` resolved to while the theme was active, `None` standing
/// for a failed lookup; rows or entries beyond the caller's answers count
/// as failed. The active theme is set to `theme_id` for the duration of the
/// call and restored before returning, on every path.
pub fn resolve_previews(
    active: &mut ActiveIconTheme,
    theme_id: &str,
    valid_dirs: &Vec<String>,
    answers: &Vec<Vec<Option<String>>>,
) -> (r: Vec<IconHandle>)
    ensures
        r@.len() == 6,
        forall|c: int|
            0 <= c < 6 ==> (#[trigger] r@[c])@ == category_preview(
                c,
                valid_dirs.deep_view(),
                answers.deep_view(),
            ),
        final(active).name == old(active).name,
{
    let saved = active.name.clone();
    active.name = theme_id.to_owned();
    let mut out: Vec<IconHandle> = Vec::new();
    let mut c: usize = 0;
    while c < CATEGORY_COUNT
        invariant
            c <= 6,
            out@.len() == c,
            forall|k: int|
                0 <= k < c ==> (#[trigger] out@[k])@ == category_preview(
                    k,
                    valid_dirs.deep_view(),
                    answers.deep_view(),
                ),
        decreases 6 - c,
    {
        out.push(resolve_category(c, valid_dirs, answers));
        c = c + 1;
    }
    active.name = saved;
    out
}

/// With an empty set of valid directories no attempt is ever accepted, so
/// every category falls back to the generic thumbnail handle.
pub proof fn lemma_empty_valid_falls_back(c: int, answers: Seq<Seq<Option<Seq<char>>>>)
    requires
        0 <= c < 6,
    ensures
        category_preview(c, Seq::empty(), answers) == IconHandleView::Named(spec_primary(c), 32),
{
    lemma_none_accepted_from(answer_row(answers, c), Seq::empty(), 0);
}

proof fn lemma_none_accepted_from(row: Seq<Option<Seq<char>>>, valid: Seq<Seq<char>>, a: int)
    requires
        valid.len() == 0,
    ensures
        first_accepted_from(row, valid, a) is None,
    decreases 6 - a,
{
    if 0 <= a < 6 {
        lemma_none_accepted_from(row, valid, a + 1);
    }
}

} // verus!
