//! Naming games from the local Steam libraries: `libraryfolders.vdf` lists
//! the libraries, each `appmanifest_<id>.acf` names one game. The files are
//! read by the caller; this is what is taken from them.

use vstd::prelude::*;
use vstd::string::StringExecFns;
use crate::accounts::text_field;
use crate::model::{expand_home, home_expanded};
use crate::pathdetect::{paths_equal, same_path};
use crate::vdf::{VdfNode, VdfObject, lookup};

verus! {

/// The path a `libraryfolders` entry names: the text itself, or the `path`
/// of an object.
pub open spec fn library_path(node: VdfNode) -> Option<Seq<char>> {
    match node {
        VdfNode::Text(t) => Some(t),
        VdfNode::Tree(f) => match lookup(f, "path"@) {
            Some(VdfNode::Text(t)) => Some(t),
            _ => None,
        },
    }
}

/// Library roots after the first `entries.len()` entries: the installation
/// root first, then each new library path with `~/` expanded.
pub open spec fn roots_after(entries: Seq<(Seq<char>, VdfNode)>, root: Seq<char>, home: Option<Seq<char>>) -> Seq<Seq<char>>
    decreases entries.len(),
{
    if entries.len() == 0 {
        seq![root]
    } else {
        let r = roots_after(entries.drop_last(), root, home);
        match library_path(entries.last().1) {
            Some(p) => {
                let e = home_expanded(p, home);
                if exists|i: int| 0 <= i < r.len() && paths_equal(#[trigger] r[i], e) {
                    r
                } else {
                    r.push(e)
                }
            },
            None => r,
        }
    }
}

/// Library roots of an installation whose `steamapps/libraryfolders.vdf`
/// reads as `library` (nothing when it could not be read).
pub open spec fn library_roots_of(root: Seq<char>, library: Option<Seq<(Seq<char>, VdfNode)>>, home: Option<Seq<char>>) -> Seq<Seq<char>> {
    match library {
        Some(data) => match lookup(data, "libraryfolders"@) {
            Some(VdfNode::Tree(entries)) => roots_after(entries, root, home),
            _ => seq![root],
        },
        None => seq![root],
    }
}

pub open spec fn texts_of(v: Seq<String>) -> Seq<Seq<char>> {
    v.map_values(|s: String| s@)
}

/// Steam library roots, the installation root first; `home` expands `~/`.
pub fn library_roots(root: &str, library: Option<&VdfObject>, home: Option<&str>) -> (result: Vec<String>)
    ensures
        texts_of(result@) == library_roots_of(
            root@,
            match library {
                Some(l) => Some(l@),
                None => None,
            },
            match home {
                Some(h) => Some(h@),
                None => None,
            },
        ),
{
    let ghost home_view = match home {
        Some(h) => Some(h@),
        None => None::<Seq<char>>,
    };
    let mut roots: Vec<String> = Vec::new();
    roots.push(root.to_owned());
    proof {
        assert(texts_of(roots@) =~= seq![root@]);
    }
    let data = match library {
        Some(data) => data,
        None => {
            return roots;
        },
    };
    let folders = match data.get_object("libraryfolders") {
        Some(folders) => folders,
        None => {
            return roots;
        },
    };
    let entries = folders.iter();
    let ghost es = folders@;
    let mut index: usize = 0;
    proof {
        assert(es.take(0) =~= Seq::<(Seq<char>, VdfNode)>::empty());
    }
    while index < entries.len()
        invariant
            entries@.len() == es.len(),
            forall|i: int| 0 <= i < es.len() ==> (#[trigger] entries@[i]).0@ == es[i].0 && entries@[i].1@ == es[i].1,
            index <= es.len(),
            home_view == match home {
                Some(h) => Some(h@),
                None => None::<Seq<char>>,
            },
            texts_of(roots@) == roots_after(es.take(index as int), root@, home_view),
        decreases es.len() - index,
    {
        let value = entries[index].1;
        proof {
            assert(es.take(index + 1).drop_last() =~= es.take(index as int));
            assert(es.take(index + 1).last() == es[index as int]);
        }
        let path: Option<&str> = match value.as_str() {
            Some(text) => Some(text),
            None => match value.as_object() {
                Some(folder) => folder.get_str("path"),
                None => None,
            },
        };
        proof {
            assert(path matches Some(p) ==> library_path(es[index as int].1) == Some(p@));
            assert(path is None ==> library_path(es[index as int].1) is None);
        }
        match path {
            Some(p) => {
                let expanded = expand_home(p, home);
                let ghost r = texts_of(roots@);
                let mut known = false;
                let mut k: usize = 0;
                while k < roots.len()
                    invariant
                        r == texts_of(roots@),
                        k <= roots@.len(),
                        known == exists|i: int| 0 <= i < k && paths_equal(#[trigger] r[i], expanded@),
                    decreases roots@.len() - k,
                {
                    proof {
                        assert(r[k as int] == roots@[k as int]@);
                    }
                    if same_path(roots[k].as_str(), expanded.as_str()) {
                        known = true;
                    }
                    k += 1;
                }
                if !known {
                    roots.push(expanded);
                    proof {
                        assert(texts_of(roots@) =~= r.push(home_expanded(p@, home_view)));
                    }
                }
            },
            None => {},
        }
        index += 1;
    }
    proof {
        assert(es.take(index as int) =~= es);
    }
    roots
}

/// The game name an app manifest gives, empty when it has none.
pub open spec fn manifest_name_of(data: Seq<(Seq<char>, VdfNode)>) -> Seq<char> {
    match lookup(data, "AppState"@) {
        Some(VdfNode::Tree(state)) => text_field(state, "name"@),
        _ => seq![],
    }
}

pub fn manifest_name(data: &VdfObject) -> (result: String)
    ensures
        result@ == manifest_name_of(data@),
{
    match data.get_object("AppState") {
        Some(state) => match state.get_str("name") {
            Some(name) => name.to_owned(),
            None => String::new(),
        },
        None => String::new(),
    }
}

/// Game name, falling back to `App <id>` so the interface never shows an
/// empty row.
pub fn display_name_for(name: &str, app_id: &str) -> (result: String)
    ensures
        result@ == if name@.len() == 0 {
            "App "@ + app_id@
        } else {
            name@
        },
{
    if name.is_empty() {
        let mut out = String::from_str("App ");
        proof {
            reveal_strlit("App ");
        }
        out.append(app_id);
        out
    } else {
        name.to_owned()
    }
}

} // verus!
