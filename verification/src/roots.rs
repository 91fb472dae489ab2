//! Construction of the ordered icon-theme search roots from environment
//! values handed in by the caller.
//!
//! System data directories come first, in the order the path list declares
//! them, each suffixed with an `icons` subdirectory; the user's personal
//! entry comes last, so that a system theme wins when a display name exists
//! in both places.

use vstd::prelude::*;

use crate::text::{split_on, split_string};

verus! {

/// The system data directories assumed when the environment declares none.
pub open spec fn default_data_dirs() -> Seq<char> {
    "/usr/local/share/:/usr/share/"@
}

/// `dir` with an `icons` subdirectory appended.
pub open spec fn join_icons(dir: Seq<char>) -> Seq<char> {
    if dir.len() == 0 {
        "icons"@
    } else if dir.last() == '/' {
        dir + "icons"@
    } else {
        dir + "/icons"@
    }
}

/// `base` with the personal `.local/share/icons` directory appended.
pub open spec fn join_data_home(base: Seq<char>) -> Seq<char> {
    if base.len() == 0 {
        ".local/share/icons"@
    } else if base.last() == '/' {
        base + ".local/share/icons"@
    } else {
        base + "/.local/share/icons"@
    }
}

/// The base of the user's personal entry: the personal data directory when
/// declared non-empty, else the home directory, else nothing.
pub open spec fn home_base(data_home: Option<Seq<char>>, home: Option<Seq<char>>) -> Option<
    Seq<char>,
> {
    match data_home {
        Some(v) => if v.len() > 0 {
            Some(v)
        } else {
            home
        },
        None => home,
    }
}

/// The ordered search roots: one entry per declared system data directory,
/// then the user's personal entry when a base for it exists.
pub open spec fn spec_search_roots(
    data_dirs: Option<Seq<char>>,
    data_home: Option<Seq<char>>,
    home: Option<Seq<char>>,
) -> Seq<Seq<char>> {
    let dstr = match data_dirs {
        Some(s) => s,
        None => default_data_dirs(),
    };
    let sys = split_on(dstr, ':').map_values(|d: Seq<char>| join_icons(d));
    match home_base(data_home, home) {
        Some(b) => sys.push(join_data_home(b)),
        None => sys,
    }
}

fn join_icons_exec(dir: &str) -> (r: String)
    ensures
        r@ == join_icons(dir@),
{
    let len = dir.unicode_len();
    if len == 0 {
        String::from_str("icons")
    } else if dir.get_char(len - 1) == '/' {
        let mut s = dir.to_owned();
        s.append("icons");
        s
    } else {
        let mut s = dir.to_owned();
        s.append("/icons");
        s
    }
}

fn join_data_home_exec(base: &str) -> (r: String)
    ensures
        r@ == join_data_home(base@),
{
    let len = base.unicode_len();
    if len == 0 {
        String::from_str(".local/share/icons")
    } else if base.get_char(len - 1) == '/' {
        let mut s = base.to_owned();
        s.append(".local/share/icons");
        s
    } else {
        let mut s = base.to_owned();
        s.append("/.local/share/icons");
        s
    }
}

/// Builds the ordered search roots from the colon-separated system data
/// directory list, the personal data directory and the home directory, each
/// as the caller found it in the environment.
pub fn search_roots(
    data_dirs: &Option<String>,
    data_home: &Option<String>,
    home: &Option<String>,
) -> (r: Vec<String>)
    ensures
        r.deep_view() == spec_search_roots(
            data_dirs.deep_view(),
            data_home.deep_view(),
            home.deep_view(),
        ),
{
    let dstr: &str = match data_dirs {
        Some(s) => s.as_str(),
        None => "/usr/local/share/:/usr/share/",
    };
    let parts = split_string(dstr, ':');
    let ghost pd = parts.deep_view();
    let ghost sys = split_on(dstr@, ':').map_values(|d: Seq<char>| join_icons(d));
    let mut out: Vec<String> = Vec::new();
    let mut i: usize = 0;
    while i < parts.len()
        invariant
            i <= parts.len(),
            pd == parts.deep_view(),
            pd == split_on(dstr@, ':'),
            pd.len() == parts.len(),
            sys == pd.map_values(|d: Seq<char>| join_icons(d)),
            out@.len() == i,
            forall|j: int| 0 <= j < i ==> #[trigger] out.deep_view()[j] == sys[j],
        decreases parts.len() - i,
    {
        proof {
            assert(pd[i as int] == parts@[i as int]@);
        }
        let ghost pre = out.deep_view();
        out.push(join_icons_exec(parts[i].as_str()));
        proof {
            assert forall|j: int| 0 <= j < i + 1 implies #[trigger] out.deep_view()[j]
                == sys[j] by {
                if j < i {
                    assert(out@[j] == out@.drop_last()[j]);
                    assert(pre[j] == sys[j]);
                } else {
                    assert(out@[j] == out@.last());
                }
            }
        }
        i = i + 1;
    }
    proof {
        assert(out.deep_view() =~= sys);
    }
    let base: Option<&String> = match data_home {
        Some(v) => {
            if v.as_str().is_empty() {
                home.as_ref()
            } else {
                Some(v)
            }
        },
        None => home.as_ref(),
    };
    match base {
        Some(b) => {
            let ghost pre = out.deep_view();
            out.push(join_data_home_exec(b.as_str()));
            proof {
                assert(out.deep_view() =~= pre.push(join_data_home(b@)));
            }
        },
        None => {},
    }
    out
}

} // verus!
