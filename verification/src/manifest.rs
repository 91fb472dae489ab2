//! Line-oriented parsing of an icon theme's `index.theme` manifest.
//!
//! Only three keys matter for discovery: `Hidden` (a value trimming to
//! `true` anywhere excludes the theme), `Name` (first occurrence wins) and
//! `Inherits` (first occurrence wins; the trimmed value splits on commas).

use vstd::prelude::*;

use crate::text::{has_prefix, split_on, split_string, str_eq, str_trim, strip_prefix_str, trim};

verus! {

/// The fields of one manifest that discovery reads.
pub struct ThemeManifest {
    /// Some line declares `Hidden` with a value that trims to `true`.
    pub hidden: bool,
    /// Trimmed value of the first `Name=` line, if any.
    pub name: Option<String>,
    /// Trimmed value of the first `Inherits=` line, split on commas; empty
    /// when no such line exists.
    pub inherits: Vec<String>,
}

/// `l` declares the theme hidden.
pub open spec fn line_hidden_true(l: Seq<char>) -> bool {
    has_prefix(l, "Hidden="@) && trim(l.skip("Hidden="@.len() as int)) == "true"@
}

/// Some line of the manifest declares the theme hidden.
pub open spec fn manifest_hidden(lines: Seq<Seq<char>>) -> bool {
    exists|i: int| 0 <= i < lines.len() && line_hidden_true(lines[i])
}

/// Trimmed value of the first line carrying the prefix `key`, if any.
pub open spec fn first_value(lines: Seq<Seq<char>>, key: Seq<char>) -> Option<Seq<char>>
    decreases lines.len(),
{
    if lines.len() == 0 {
        None
    } else if has_prefix(lines[0], key) {
        Some(trim(lines[0].skip(key.len() as int)))
    } else {
        first_value(lines.skip(1), key)
    }
}

/// The theme's declared display name.
pub open spec fn manifest_name(lines: Seq<Seq<char>>) -> Option<Seq<char>> {
    first_value(lines, "Name="@)
}

/// The raw inherited theme names, in declared order.
pub open spec fn manifest_inherits(lines: Seq<Seq<char>>) -> Seq<Seq<char>> {
    match first_value(lines, "Inherits="@) {
        Some(v) => split_on(v, ','),
        None => Seq::empty(),
    }
}

proof fn lemma_first_value_step(lines: Seq<Seq<char>>, i: int, key: Seq<char>)
    requires
        0 <= i < lines.len(),
        !has_prefix(lines[i], key),
    ensures
        first_value(lines.skip(i), key) == first_value(lines.skip(i + 1), key),
{
    assert(lines.skip(i)[0] == lines[i]);
    assert(lines.skip(i).skip(1) =~= lines.skip(i + 1));
}

proof fn lemma_first_value_hit(lines: Seq<Seq<char>>, i: int, key: Seq<char>)
    requires
        0 <= i < lines.len(),
        has_prefix(lines[i], key),
    ensures
        first_value(lines.skip(i), key) == Some(trim(lines[i].skip(key.len() as int))),
{
    assert(lines.skip(i)[0] == lines[i]);
}

/// Reads the discovery-relevant fields out of a manifest's lines.
///
/// When the manifest declares itself hidden, only the `hidden` flag of the
/// result is meaningful: scanning stops at the hiding line, as the theme is
/// discarded whole.
pub fn parse_manifest(lines: &Vec<String>) -> (r: ThemeManifest)
    ensures
        r.hidden == manifest_hidden(lines.deep_view()),
        !r.hidden ==> r.name.deep_view() == manifest_name(lines.deep_view()),
        !r.hidden ==> r.inherits.deep_view() == manifest_inherits(lines.deep_view()),
{
    let ghost ld = lines.deep_view();
    let mut name: Option<String> = None;
    let mut inherits: Option<Vec<String>> = None;
    let mut i: usize = 0;
    proof {
        assert(ld.skip(0) =~= ld);
    }
    while i < lines.len()
        invariant
            i <= lines.len(),
            ld == lines.deep_view(),
            ld.len() == lines.len(),
            forall|k: int| 0 <= k < i ==> !line_hidden_true(ld[k]),
            match name {
                Some(n) => manifest_name(ld) == Some(n@),
                None => manifest_name(ld) == first_value(ld.skip(i as int), "Name="@),
            },
            match inherits {
                Some(v) => first_value(ld, "Inherits="@) matches Some(raw) && v.deep_view()
                    == split_on(raw, ','),
                None => first_value(ld, "Inherits="@) == first_value(
                    ld.skip(i as int),
                    "Inherits="@,
                ),
            },
        decreases lines.len() - i,
    {
        let line = &lines[i];
        proof {
            assert(ld[i as int] == line@);
        }
        if let Some(v) = strip_prefix_str(line.as_str(), "Hidden=") {
            let t = str_trim(v.as_str());
            if str_eq(t.as_str(), "true") {
                proof {
                    assert(line_hidden_true(ld[i as int]));
                }
                return ThemeManifest { hidden: true, name: None, inherits: Vec::new() };
            }
        }
        if name.is_none() {
            if let Some(v) = strip_prefix_str(line.as_str(), "Name=") {
                proof {
                    lemma_first_value_hit(ld, i as int, "Name="@);
                }
                name = Some(str_trim(v.as_str()));
            }
        }
        if inherits.is_none() {
            if let Some(v) = strip_prefix_str(line.as_str(), "Inherits=") {
                proof {
                    lemma_first_value_hit(ld, i as int, "Inherits="@);
                }
                let t = str_trim(v.as_str());
                inherits = Some(split_string(t.as_str(), ','));
            }
        }
        proof {
            if !has_prefix(ld[i as int], "Name="@) {
                lemma_first_value_step(ld, i as int, "Name="@);
            }
            if !has_prefix(ld[i as int], "Inherits="@) {
                lemma_first_value_step(ld, i as int, "Inherits="@);
            }
        }
        i = i + 1;
    }
    proof {
        assert(ld.skip(i as int) =~= Seq::<Seq<char>>::empty());
    }
    let inh: Vec<String> = match inherits {
        Some(v) => v,
        None => Vec::new(),
    };
    proof {
        if first_value(ld, "Inherits="@) is None {
            assert(inh.deep_view() =~= manifest_inherits(ld));
        }
    }
    ThemeManifest { hidden: false, name, inherits: inh }
}

} // verus!
