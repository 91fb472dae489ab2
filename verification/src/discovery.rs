//! Icon-theme discovery: the scan over search-root directory entries.
//!
//! The caller walks the search roots in priority order and hands each entry's
//! directory name, canonical path and manifest lines to [`Discovery`], which
//! decides everything else: hidden and unnamed manifests are discarded,
//! display names are deduplicated first-found-wins, each accepted theme's
//! inheritance chain is built against the themes seen earlier in the same
//! pass, and the accepted themes are kept ordered lexicographically by
//! `(id, name)`.
//!
//! The whole scan is modelled by the spec functions [`scan_step`] and
//! [`scan_all`] over [`ScanState`]; [`Discovery::process_entry`] is proved to
//! implement exactly one [`scan_step`].

use vstd::prelude::*;

use crate::manifest::{manifest_hidden, manifest_inherits, manifest_name, parse_manifest};
use crate::text::{
    contains_string, lemma_lex_transitive, lemma_lex_trichotomy, lex_lt, split_on, split_string,
    str_eq, str_lex_lt,
};
use crate::theme::IconTheme;

verus! {

/// One display name already seen during a pass, with the directory-name
/// component of the path that backs it.
#[verifier::ext_equal]
pub struct SeenRec {
    pub name: Seq<char>,
    pub dir: Seq<char>,
}

/// One accepted theme: identity and inheritance chain.
#[verifier::ext_equal]
pub struct ThemeRec {
    pub id: Seq<char>,
    pub name: Seq<char>,
    pub chain: Seq<Seq<char>>,
}

/// The state of a discovery pass: the names seen so far in scan order, and
/// the accepted themes ordered by `(id, name)`.
#[verifier::ext_equal]
pub struct ScanState {
    pub seen: Seq<SeenRec>,
    pub found: Seq<ThemeRec>,
}

/// One directory entry offered to the scan.
#[verifier::ext_equal]
pub struct EntryRec {
    pub id: Seq<char>,
    pub canon: Seq<char>,
    pub lines: Seq<Seq<char>>,
}

/// The state a pass starts from.
pub open spec fn initial_state() -> ScanState {
    ScanState { seen: Seq::empty(), found: Seq::empty() }
}

/// Some seen record carries the display name `n`.
pub open spec fn seen_has(seen: Seq<SeenRec>, n: Seq<char>) -> bool {
    exists|k: int| 0 <= k < seen.len() && seen[k].name == n
}

/// The directory name an inherited theme name resolves to: the backing
/// directory of the first seen theme with that display name, or the name
/// itself when no seen theme carries it.
pub open spec fn resolve_name(seen: Seq<SeenRec>, raw: Seq<char>) -> Seq<char>
    decreases seen.len(),
{
    if seen.len() == 0 {
        raw
    } else if seen[0].name == raw {
        seen[0].dir
    } else {
        resolve_name(seen.skip(1), raw)
    }
}

/// The parts of `parts` that are non-empty, in order.
pub open spec fn nonempty_parts(parts: Seq<Seq<char>>) -> Seq<Seq<char>> {
    parts.filter(|c: Seq<char>| c.len() > 0)
}

/// The non-empty `/`-separated components of a path.
pub open spec fn components(p: Seq<char>) -> Seq<Seq<char>> {
    nonempty_parts(split_on(p, '/'))
}

/// The terminal directory-name component of a theme's canonical path, the
/// theme's own display name standing in when the path has no components.
pub open spec fn own_dir(canon: Seq<char>, name: Seq<char>) -> Seq<char> {
    let cs = components(canon);
    if cs.len() > 0 {
        cs.last()
    } else {
        name
    }
}

/// The inheritance chain of a theme: each raw inherited name resolved
/// against the themes seen earlier, the theme's own directory name last.
pub open spec fn chain_of(seen: Seq<SeenRec>, inherits: Seq<Seq<char>>, own: Seq<char>) -> Seq<
    Seq<char>,
> {
    inherits.map_values(|raw: Seq<char>| resolve_name(seen, raw)).push(own)
}

/// Strict `(id, name)` order on accepted themes.
pub open spec fn pair_lt(a: ThemeRec, b: ThemeRec) -> bool {
    lex_lt(a.id, b.id) || (a.id == b.id && lex_lt(a.name, b.name))
}

/// `r` inserted before the first record it precedes.
pub open spec fn sorted_insert(s: Seq<ThemeRec>, r: ThemeRec) -> Seq<ThemeRec>
    decreases s.len(),
{
    if s.len() == 0 {
        seq![r]
    } else if pair_lt(r, s[0]) {
        seq![r] + s
    } else {
        seq![s[0]] + sorted_insert(s.skip(1), r)
    }
}

/// How one directory entry changes the state of a pass: a manifest that is
/// hidden or unnamed, or whose display name was already seen, changes
/// nothing; any other manifest records its name and enters the accepted
/// themes at its ordered position.
pub open spec fn scan_step(
    st: ScanState,
    id: Seq<char>,
    canon: Seq<char>,
    lines: Seq<Seq<char>>,
) -> ScanState {
    if manifest_hidden(lines) {
        st
    } else {
        match manifest_name(lines) {
            None => st,
            Some(nm) => {
                if seen_has(st.seen, nm) {
                    st
                } else {
                    let own = own_dir(canon, nm);
                    ScanState {
                        seen: st.seen.push(SeenRec { name: nm, dir: own }),
                        found: sorted_insert(
                            st.found,
                            ThemeRec {
                                id: id,
                                name: nm,
                                chain: chain_of(st.seen, manifest_inherits(lines), own),
                            },
                        ),
                    }
                }
            },
        }
    }
}

/// A whole pass: the entries folded through `scan_step` in order.
pub open spec fn scan_all(st: ScanState, entries: Seq<EntryRec>) -> ScanState
    decreases entries.len(),
{
    if entries.len() == 0 {
        st
    } else {
        scan_all(
            scan_step(st, entries[0].id, entries[0].canon, entries[0].lines),
            entries.skip(1),
        )
    }
}

/// A manifest with a line declaring `Hidden=true` leaves the pass unchanged:
/// the theme is excluded from discovery whatever its other fields say.
pub proof fn lemma_hidden_theme_excluded(
    st: ScanState,
    id: Seq<char>,
    canon: Seq<char>,
    lines: Seq<Seq<char>>,
)
    requires
        manifest_hidden(lines),
    ensures
        scan_step(st, id, canon, lines) == st,
{
}

/// A manifest without a `Name=` line leaves the pass unchanged: such themes
/// are excluded from discovery.
pub proof fn lemma_unnamed_theme_excluded(
    st: ScanState,
    id: Seq<char>,
    canon: Seq<char>,
    lines: Seq<Seq<char>>,
)
    requires
        manifest_name(lines) is None,
    ensures
        scan_step(st, id, canon, lines) == st,
{
}

/// A manifest whose display name was already seen leaves the pass unchanged:
/// when two search roots offer the same display name, the entry scanned
/// earlier — the one from the higher-priority root — wins.
pub proof fn lemma_duplicate_name_excluded(
    st: ScanState,
    id: Seq<char>,
    canon: Seq<char>,
    lines: Seq<Seq<char>>,
)
    requires
        manifest_name(lines) matches Some(nm) && seen_has(st.seen, nm),
    ensures
        scan_step(st, id, canon, lines) == st,
{
}

/// Scanning no entries yields an empty discovery result: an empty or wholly
/// unreadable set of search roots is not an error.
pub proof fn lemma_empty_scan()
    ensures
        scan_all(initial_state(), Seq::empty()).found == Seq::<ThemeRec>::empty(),
{
}

/// A pass over one more entry is the pass so far followed by one step: the
/// state after feeding an entry sequence is a function of that sequence
/// alone, so two passes over equal entries end in equal states, in equal
/// order.
pub proof fn lemma_scan_all_push(st: ScanState, entries: Seq<EntryRec>, e: EntryRec)
    ensures
        scan_all(st, entries.push(e)) == scan_step(
            scan_all(st, entries),
            e.id,
            e.canon,
            e.lines,
        ),
    decreases entries.len(),
{
    let whole = entries.push(e);
    assert(scan_all(st, whole) == scan_all(
        scan_step(st, whole[0].id, whole[0].canon, whole[0].lines),
        whole.skip(1),
    ));
    if entries.len() == 0 {
        assert(whole[0] == e);
        assert(whole.skip(1) =~= Seq::<EntryRec>::empty());
        assert(scan_all(st, entries) == st);
        assert(scan_all(scan_step(st, e.id, e.canon, e.lines), whole.skip(1)) == scan_step(
            st,
            e.id,
            e.canon,
            e.lines,
        ));
    } else {
        let step1 = scan_step(st, entries[0].id, entries[0].canon, entries[0].lines);
        assert(whole[0] == entries[0]);
        assert(whole.skip(1) =~= entries.skip(1).push(e));
        lemma_scan_all_push(step1, entries.skip(1), e);
        assert(scan_all(st, entries) == scan_all(step1, entries.skip(1)));
    }
}

/// An inherited name carried by no previously seen theme stays literal in
/// the chain.
pub proof fn lemma_resolve_unseen(seen: Seq<SeenRec>, raw: Seq<char>)
    requires
        !seen_has(seen, raw),
    ensures
        resolve_name(seen, raw) == raw,
    decreases seen.len(),
{
    if seen.len() > 0 {
        assert(seen[0].name != raw);
        assert(forall|k: int|
            0 <= k < seen.skip(1).len() ==> #[trigger] seen.skip(1)[k] == seen[k + 1]);
        lemma_resolve_unseen(seen.skip(1), raw);
    }
}

/// An inherited name first seen at position `j` resolves to that record's
/// backing directory.
pub proof fn lemma_resolve_seen(seen: Seq<SeenRec>, raw: Seq<char>, j: int)
    requires
        0 <= j < seen.len(),
        seen[j].name == raw,
        forall|k: int| 0 <= k < j ==> seen[k].name != raw,
    ensures
        resolve_name(seen, raw) == seen[j].dir,
    decreases j,
{
    if j > 0 {
        assert(forall|k: int|
            0 <= k < seen.skip(1).len() ==> #[trigger] seen.skip(1)[k] == seen[k + 1]);
        lemma_resolve_seen(seen.skip(1), raw, j - 1);
    }
}

/// The shape of an inheritance chain: one entry per raw inherited name, in
/// declared order and resolved against the seen themes, and the theme's own
/// directory name last.
pub proof fn lemma_chain_entries(seen: Seq<SeenRec>, inherits: Seq<Seq<char>>, own: Seq<char>)
    ensures
        chain_of(seen, inherits, own).len() == inherits.len() + 1,
        forall|k: int|
            0 <= k < inherits.len() ==> chain_of(seen, inherits, own)[k] == resolve_name(
                seen,
                inherits[k],
            ),
        chain_of(seen, inherits, own).last() == own,
{
}

/// The accepted themes are strictly ordered by `(id, name)`.
pub open spec fn strictly_sorted(s: Seq<ThemeRec>) -> bool {
    forall|i: int, j: int| 0 <= i < j < s.len() ==> pair_lt(s[i], s[j])
}

/// What every reachable scan state satisfies: seen names are unique, the
/// accepted themes are strictly ordered by `(id, name)`, and every accepted
/// theme's name was seen.
pub open spec fn state_inv(st: ScanState) -> bool {
    &&& forall|i: int, j: int|
        0 <= i < j < st.seen.len() ==> (#[trigger] st.seen[i]).name != (#[trigger] st.seen[j]).name
    &&& strictly_sorted(st.found)
    &&& forall|i: int| 0 <= i < st.found.len() ==> seen_has(st.seen, (#[trigger] st.found[i]).name)
}

proof fn lemma_pair_lt_cases(a: ThemeRec, b: ThemeRec)
    ensures
        pair_lt(a, b) || pair_lt(b, a) || (a.id == b.id && a.name == b.name),
        pair_lt(a, b) ==> !pair_lt(b, a),
{
    lemma_lex_trichotomy(a.id, b.id);
    lemma_lex_trichotomy(a.name, b.name);
}

proof fn lemma_pair_lt_transitive(a: ThemeRec, b: ThemeRec, c: ThemeRec)
    requires
        pair_lt(a, b),
        pair_lt(b, c),
    ensures
        pair_lt(a, c),
{
    if lex_lt(a.id, b.id) && lex_lt(b.id, c.id) {
        lemma_lex_transitive(a.id, b.id, c.id);
    } else if a.id == b.id && b.id == c.id {
        lemma_lex_transitive(a.name, b.name, c.name);
    }
}

/// Inserting a record whose name no present record carries keeps the
/// accepted themes strictly ordered, grows them by one, and adds nothing
/// but the new record.
proof fn lemma_sorted_insert_props(s: Seq<ThemeRec>, r: ThemeRec)
    requires
        strictly_sorted(s),
        forall|k: int| 0 <= k < s.len() ==> (#[trigger] s[k]).name != r.name,
    ensures
        strictly_sorted(sorted_insert(s, r)),
        sorted_insert(s, r).len() == s.len() + 1,
        forall|k: int|
            0 <= k < sorted_insert(s, r).len() ==> s.contains(#[trigger] sorted_insert(s, r)[k])
                || sorted_insert(s, r)[k] == r,
    decreases s.len(),
{
    let out = sorted_insert(s, r);
    if s.len() == 0 {
    } else if pair_lt(r, s[0]) {
        assert forall|i: int, j: int| 0 <= i < j < out.len() implies pair_lt(out[i], out[j]) by {
            if i == 0 {
                assert(out[j] == s[j - 1]);
                if j == 1 {
                } else {
                    lemma_pair_lt_transitive(r, s[0], s[j - 1]);
                }
            } else {
                assert(out[i] == s[i - 1] && out[j] == s[j - 1]);
            }
        }
        assert forall|k: int| 0 <= k < out.len() implies s.contains(#[trigger] out[k]) || out[k]
            == r by {
            if k > 0 {
                assert(out[k] == s[k - 1]);
            }
        }
    } else {
        let t = s.skip(1);
        assert(forall|k: int| 0 <= k < t.len() ==> #[trigger] t[k] == s[k + 1]);
        lemma_sorted_insert_props(t, r);
        let rest = sorted_insert(t, r);
        lemma_pair_lt_cases(r, s[0]);
        assert(pair_lt(s[0], r));
        assert forall|i: int, j: int| 0 <= i < j < out.len() implies pair_lt(out[i], out[j]) by {
            if i == 0 {
                assert(out[j] == rest[j - 1]);
                if t.contains(rest[j - 1]) {
                    let w = choose|w: int| 0 <= w < t.len() && t[w] == rest[j - 1];
                    assert(s[w + 1] == rest[j - 1]);
                } else {
                    assert(rest[j - 1] == r);
                }
            } else {
                assert(out[i] == rest[i - 1] && out[j] == rest[j - 1]);
            }
        }
        assert forall|k: int| 0 <= k < out.len() implies s.contains(#[trigger] out[k]) || out[k]
            == r by {
            if k == 0 {
                assert(s[0] == out[0]);
            } else {
                assert(out[k] == rest[k - 1]);
                if t.contains(rest[k - 1]) {
                    let w = choose|w: int| 0 <= w < t.len() && t[w] == rest[k - 1];
                    assert(s[w + 1] == rest[k - 1]);
                }
            }
        }
    }
}

/// One scan step preserves the state invariant: uniqueness of seen names
/// and the strict `(id, name)` ordering of the accepted themes.
pub proof fn lemma_scan_step_preserves_inv(
    st: ScanState,
    id: Seq<char>,
    canon: Seq<char>,
    lines: Seq<Seq<char>>,
)
    requires
        state_inv(st),
    ensures
        state_inv(scan_step(st, id, canon, lines)),
{
    let post = scan_step(st, id, canon, lines);
    if !manifest_hidden(lines) && manifest_name(lines) is Some {
        let nm = manifest_name(lines)->Some_0;
        if !seen_has(st.seen, nm) {
            let own = own_dir(canon, nm);
            let r = ThemeRec {
                id: id,
                name: nm,
                chain: chain_of(st.seen, manifest_inherits(lines), own),
            };
            assert forall|k: int| 0 <= k < st.found.len() implies (#[trigger] st.found[k]).name
                != r.name by {
                assert(seen_has(st.seen, st.found[k].name));
            }
            lemma_sorted_insert_props(st.found, r);
            assert forall|i: int|
                0 <= i < post.found.len() implies seen_has(
                post.seen,
                (#[trigger] post.found[i]).name,
            ) by {
                if st.found.contains(post.found[i]) {
                    let w = choose|w: int|
                        0 <= w < st.found.len() && st.found[w] == post.found[i];
                    let v = choose|v: int|
                        0 <= v < st.seen.len() && st.seen[v].name == st.found[w].name;
                    assert(post.seen[v].name == post.found[i].name);
                } else {
                    assert(post.found[i] == r);
                    assert(post.seen[st.seen.len() as int].name == nm);
                }
            }
        }
    }
}

/// A whole pass from a state satisfying the invariant ends in one: in
/// particular the themes a pass discovers are strictly ordered by
/// `(id, name)` and carry pairwise distinct display names.
pub proof fn lemma_scan_all_inv(st: ScanState, entries: Seq<EntryRec>)
    requires
        state_inv(st),
    ensures
        state_inv(scan_all(st, entries)),
    decreases entries.len(),
{
    if entries.len() > 0 {
        lemma_scan_step_preserves_inv(st, entries[0].id, entries[0].canon, entries[0].lines);
        lemma_scan_all_inv(
            scan_step(st, entries[0].id, entries[0].canon, entries[0].lines),
            entries.skip(1),
        );
    }
}

/// The state a pass starts from satisfies the invariant.
pub proof fn lemma_initial_inv()
    ensures
        state_inv(initial_state()),
{
}

proof fn lemma_nonempty_parts_last(parts: Seq<Seq<char>>, j: int)
    requires
        0 <= j < parts.len(),
        parts[j].len() > 0,
        forall|k: int| j < k < parts.len() ==> (#[trigger] parts[k]).len() == 0,
    ensures
        nonempty_parts(parts).len() > 0,
        nonempty_parts(parts).last() == parts[j],
    decreases parts.len(),
{
    reveal_with_fuel(Seq::filter, 2);
    if j == parts.len() - 1 {
        assert(parts.last() == parts[j]);
    } else {
        let t = parts.drop_last();
        assert(parts.last().len() == 0);
        assert(forall|k: int| 0 <= k < t.len() ==> #[trigger] t[k] == parts[k]);
        lemma_nonempty_parts_last(t, j);
    }
}

proof fn lemma_nonempty_parts_none(parts: Seq<Seq<char>>)
    requires
        forall|k: int| 0 <= k < parts.len() ==> (#[trigger] parts[k]).len() == 0,
    ensures
        nonempty_parts(parts).len() == 0,
    decreases parts.len(),
{
    reveal_with_fuel(Seq::filter, 2);
    if parts.len() > 0 {
        let t = parts.drop_last();
        assert(forall|k: int| 0 <= k < t.len() ==> #[trigger] t[k] == parts[k]);
        lemma_nonempty_parts_none(t);
    }
}

proof fn lemma_sorted_insert_position(s: Seq<ThemeRec>, r: ThemeRec, p: int)
    requires
        0 <= p <= s.len(),
        forall|i: int| 0 <= i < p ==> !pair_lt(r, #[trigger] s[i]),
        p < s.len() ==> pair_lt(r, s[p]),
    ensures
        sorted_insert(s, r) == s.insert(p, r),
    decreases s.len(),
{
    if s.len() == 0 {
        assert(sorted_insert(s, r) =~= s.insert(0, r));
    } else if pair_lt(r, s[0]) {
        assert(p == 0);
        assert(seq![r] + s =~= s.insert(0, r));
    } else {
        assert(p >= 1);
        let t = s.skip(1);
        assert(forall|k: int| 0 <= k < t.len() ==> #[trigger] t[k] == s[k + 1]);
        lemma_sorted_insert_position(t, r, p - 1);
        assert(seq![s[0]] + t.insert(p - 1, r) =~= s.insert(p, r));
    }
}

/// The seen records held as two parallel sequences of names and directories.
pub open spec fn zip_seen(names: Seq<Seq<char>>, dirs: Seq<Seq<char>>) -> Seq<SeenRec> {
    Seq::new(names.len(), |k: int| SeenRec { name: names[k], dir: dirs[k] })
}

/// The terminal non-empty component of `canon`, or `fallback` when `canon`
/// has none.
fn last_component_or(canon: &str, fallback: &String) -> (r: String)
    ensures
        r@ == own_dir(canon@, fallback@),
{
    let parts = split_string(canon, '/');
    let ghost pd = parts.deep_view();
    let mut j: usize = parts.len();
    while j > 0
        invariant
            j <= parts.len(),
            pd == parts.deep_view(),
            pd == split_on(canon@, '/'),
            pd.len() == parts.len(),
            forall|k: int| j <= k < pd.len() ==> (#[trigger] pd[k]).len() == 0,
        decreases j,
    {
        if !parts[j - 1].as_str().is_empty() {
            proof {
                assert(pd[j - 1] == parts@[j - 1]@);
                lemma_nonempty_parts_last(pd, j - 1);
                assert(components(canon@).last() == pd[j - 1]);
            }
            return parts[j - 1].clone();
        }
        j = j - 1;
    }
    proof {
        lemma_nonempty_parts_none(pd);
    }
    fallback.clone()
}

/// The directory name `raw` resolves to against the seen themes.
fn resolve_inherit(names: &Vec<String>, dirs: &Vec<String>, raw: &String) -> (r: String)
    requires
        names@.len() == dirs@.len(),
    ensures
        r@ == resolve_name(zip_seen(names.deep_view(), dirs.deep_view()), raw@),
{
    let ghost seen = zip_seen(names.deep_view(), dirs.deep_view());
    let mut j: usize = 0;
    while j < names.len()
        invariant
            j <= names.len(),
            names@.len() == dirs@.len(),
            seen == zip_seen(names.deep_view(), dirs.deep_view()),
            forall|k: int| 0 <= k < j ==> (#[trigger] seen[k]).name != raw@,
        decreases names.len() - j,
    {
        if str_eq(names[j].as_str(), raw.as_str()) {
            proof {
                lemma_resolve_seen(seen, raw@, j as int);
            }
            return dirs[j].clone();
        }
        j = j + 1;
    }
    proof {
        lemma_resolve_unseen(seen, raw@);
    }
    raw.clone()
}

/// Whether `a` comes strictly before `b` in `(id, name)` order.
fn theme_lt(a: &IconTheme, b: &IconTheme) -> (r: bool)
    ensures
        r == (lex_lt(a.id@, b.id@) || (a.id@ == b.id@ && lex_lt(a.name@, b.name@))),
{
    if str_lex_lt(a.id.as_str(), b.id.as_str()) {
        true
    } else if str_eq(a.id.as_str(), b.id.as_str()) {
        str_lex_lt(a.name.as_str(), b.name.as_str())
    } else {
        false
    }
}

/// The position at which `theme` enters `themes` to keep `(id, name)` order:
/// the first index holding a theme that `theme` precedes.
fn insert_position(themes: &Vec<IconTheme>, theme: &IconTheme) -> (p: usize)
    ensures
        p <= themes@.len(),
        forall|i: int|
            0 <= i < p ==> !(lex_lt(theme.id@, (#[trigger] themes@[i]).id@) || (theme.id@
                == themes@[i].id@ && lex_lt(theme.name@, themes@[i].name@))),
        p < themes@.len() ==> (lex_lt(theme.id@, themes@[p as int].id@) || (theme.id@
            == themes@[p as int].id@ && lex_lt(theme.name@, themes@[p as int].name@))),
{
    let mut p: usize = 0;
    while p < themes.len()
        invariant
            p <= themes@.len(),
            forall|i: int|
                0 <= i < p ==> !(lex_lt(theme.id@, (#[trigger] themes@[i]).id@) || (theme.id@
                    == themes@[i].id@ && lex_lt(theme.name@, themes@[i].name@))),
        decreases themes@.len() - p,
    {
        if theme_lt(theme, &themes[p]) {
            return p;
        }
        p = p + 1;
    }
    p
}

/// A discovery pass in progress.
///
/// Feed every directory entry of every search root, in priority order, to
/// [`Discovery::process_entry`]; the accepted themes and their inheritance
/// chains then stand in `(id, name)` order.
pub struct Discovery {
    seen_names: Vec<String>,
    seen_dirs: Vec<String>,
    themes: Vec<IconTheme>,
    chains: Vec<Vec<String>>,
}

impl View for Discovery {
    type V = ScanState;

    closed spec fn view(&self) -> ScanState {
        ScanState {
            seen: zip_seen(self.seen_names.deep_view(), self.seen_dirs.deep_view()),
            found: Seq::new(
                self.themes@.len(),
                |k: int|
                    ThemeRec {
                        id: self.themes@[k].id@,
                        name: self.themes@[k].name@,
                        chain: self.chains@[k].deep_view(),
                    },
            ),
        }
    }
}

impl Discovery {
    /// The parallel in-memory sequences line up.
    pub closed spec fn wf(&self) -> bool {
        &&& self.seen_names@.len() == self.seen_dirs@.len()
        &&& self.themes@.len() == self.chains@.len()
    }

    /// An empty pass: no names seen, no themes found.
    pub fn new() -> (r: Discovery)
        ensures
            r.wf(),
            r@ == initial_state(),
    {
        let r = Discovery {
            seen_names: Vec::new(),
            seen_dirs: Vec::new(),
            themes: Vec::new(),
            chains: Vec::new(),
        };
        proof {
            assert(r@.seen =~= initial_state().seen);
            assert(r@.found =~= initial_state().found);
            assert(r@ =~= initial_state());
        }
        r
    }

    /// How many themes the pass has accepted.
    pub fn len(&self) -> (r: usize)
        ensures
            r == self@.found.len(),
    {
        self.themes.len()
    }

    /// The `i`-th accepted theme in `(id, name)` order.
    pub fn theme_at(&self, i: usize) -> (r: &IconTheme)
        requires
            i < self@.found.len(),
        ensures
            r.id@ == self@.found[i as int].id,
            r.name@ == self@.found[i as int].name,
    {
        &self.themes[i]
    }

    /// The inheritance chain of the `i`-th accepted theme.
    pub fn chain_at(&self, i: usize) -> (r: &Vec<String>)
        requires
            self.wf(),
            i < self@.found.len(),
        ensures
            r.deep_view() == self@.found[i as int].chain,
    {
        &self.chains[i]
    }

    /// Processes one directory entry: `id` is the entry's file name,
    /// `canonical_path` the entry's canonicalized path, and `lines` the
    /// lines of the manifest found inside it.
    ///
    /// Returns whether the entry entered the discovery result; a hidden
    /// manifest, a manifest without a display name, and a display name
    /// already seen in this pass are dropped without changing anything.
    #[verifier::rlimit(50)]
    pub fn process_entry(&mut self, id: &str, canonical_path: &str, lines: &Vec<String>) -> (accepted:
        bool)
        requires
            old(self).wf(),
        ensures
            final(self).wf(),
            final(self)@ == scan_step(
                old(self)@,
                id@,
                canonical_path@,
                lines.deep_view(),
            ),
            accepted == (!manifest_hidden(lines.deep_view()) && manifest_name(lines.deep_view())
                is Some && !seen_has(
                old(self)@.seen,
                manifest_name(lines.deep_view())->Some_0,
            )),
    {
        let ghost ld = lines.deep_view();
        let ghost st = self@;
        let m = parse_manifest(lines);
        let m_hidden = m.hidden;
        let m_name = m.name;
        let m_inherits = m.inherits;
        if m_hidden {
            return false;
        }
        let name = match m_name {
            Some(n) => n,
            None => {
                return false;
            },
        };
        if contains_string(&self.seen_names, name.as_str()) {
            proof {
                let w = choose|w: int|
                    0 <= w < self.seen_names.deep_view().len()
                        && self.seen_names.deep_view()[w] == name@;
                assert(st.seen[w].name == name@);
            }
            return false;
        }
        proof {
            assert forall|k: int| 0 <= k < st.seen.len() implies (#[trigger] st.seen[k]).name
                != name@ by {
                assert(st.seen[k].name == self.seen_names.deep_view()[k]);
            }
        }
        let own = last_component_or(canonical_path, &name);
        let ghost inh = manifest_inherits(ld);
        let mut chain: Vec<String> = Vec::new();
        let mut k: usize = 0;
        while k < m_inherits.len()
            invariant
                k <= m_inherits.len(),
                self.wf(),
                st == self@,
                m_inherits.deep_view() == inh,
                chain@.len() == k,
                forall|j: int|
                    0 <= j < k ==> #[trigger] chain.deep_view()[j] == resolve_name(
                        st.seen,
                        inh[j],
                    ),
            decreases m_inherits.len() - k,
        {
            proof {
                assert(m_inherits.deep_view()[k as int] == m_inherits@[k as int]@);
            }
            let resolved = resolve_inherit(&self.seen_names, &self.seen_dirs, &m_inherits[k]);
            let ghost prev = chain.deep_view();
            chain.push(resolved);
            proof {
                assert forall|j: int| 0 <= j < k + 1 implies #[trigger] chain.deep_view()[j]
                    == resolve_name(st.seen, inh[j]) by {
                    if j < k {
                        assert(chain@[j] == chain@.drop_last()[j]);
                        assert(prev[j] == resolve_name(st.seen, inh[j]));
                    } else {
                        assert(chain@[j] == resolved);
                    }
                }
            }
            k = k + 1;
        }
        let ghost pre_own = chain.deep_view();
        chain.push(own.clone());
        proof {
            let want = chain_of(st.seen, inh, own@);
            assert forall|j: int| 0 <= j < chain.deep_view().len() implies #[trigger] chain.deep_view()[j]
                == want[j] by {
                if j < inh.len() {
                    assert(chain@[j] == chain@.drop_last()[j]);
                    assert(pre_own[j] == resolve_name(st.seen, inh[j]));
                } else {
                    assert(chain@[j] == chain@.last());
                }
            }
            assert(chain.deep_view() =~= want);
        }
        let theme = IconTheme { id: id.to_owned(), name: name.clone() };
        let ghost r = ThemeRec { id: id@, name: name@, chain: chain.deep_view() };
        let p = insert_position(&self.themes, &theme);
        proof {
            assert forall|i: int| 0 <= i < p implies !pair_lt(r, #[trigger] st.found[i]) by {
                assert(st.found[i].id == self.themes@[i].id@);
                assert(st.found[i].name == self.themes@[i].name@);
            }
            if p < self.themes@.len() {
                assert(st.found[p as int].id == self.themes@[p as int].id@);
                assert(st.found[p as int].name == self.themes@[p as int].name@);
            }
            lemma_sorted_insert_position(st.found, r, p as int);
            st.found.insert_ensures(p as int, r);
        }
        self.themes.insert(p, theme);
        self.chains.insert(p, chain);
        self.seen_names.push(name);
        self.seen_dirs.push(own);
        proof {
            let post = scan_step(st, id@, canonical_path@, ld);
            assert(self@.seen =~= post.seen);
            assert forall|i: int| 0 <= i < self@.found.len() implies self@.found[i]
                =~= post.found[i] by {
                st.found.insert_ensures(p as int, r);
                if i < p {
                    assert(self.themes@[i] == old(self).themes@[i]);
                    assert(self.chains@[i] == old(self).chains@[i]);
                } else if i == p {
                } else {
                    assert(self.themes@[i] == old(self).themes@[i - 1]);
                    assert(self.chains@[i] == old(self).chains@[i - 1]);
                }
            }
            assert(self@.found =~= post.found);
            assert(self@ =~= post);
        }
        true
    }
}

} // verus!
