//! Where Steam caches account avatars, and which cached file belongs to an
//! account. The caller checks which candidate files exist and lists the cache
//! folders; the choice is made here.

use vstd::prelude::*;
use vstd::string::StringExecFns;
use crate::model::{SteamInstallation, join_path, joined};
use crate::text::{contains_text, first_where, has_infix, lemma_first_where_found, lemma_first_where_none, lowercase, text_eq, to_lowercase};

verus! {

/// File name endings of cached avatars.
pub open spec fn avatar_suffixes() -> Seq<Seq<char>> {
    seq![".png"@, ".jpg"@, ".jpeg"@, ".webp"@]
}

/// Names an avatar of the account may have: its id, its login name, then
/// the sized variants of its id.
pub open spec fn avatar_names_of(steam_id: Seq<char>, account_name: Seq<char>) -> Seq<Seq<char>> {
    seq![steam_id] + (if account_name.len() > 0 {
        seq![account_name]
    } else {
        seq![]
    }) + seq![steam_id + "_full"@, steam_id + "_medium"@, steam_id + "_icon"@]
}

/// The avatar caches of an installation, in the order they are searched.
pub open spec fn avatar_dirs_of(config_dir: Seq<char>, root: Seq<char>) -> Seq<Seq<char>> {
    seq![joined(config_dir, "avatarcache"@), joined(root, "config/avatarcache"@), joined(root, "appcache/avatarcache"@)]
}

/// Candidate files in one folder: each name with each ending.
pub open spec fn folder_candidates(dir: Seq<char>, names: Seq<Seq<char>>) -> Seq<Seq<char>>
    decreases names.len(),
{
    if names.len() == 0 {
        seq![]
    } else {
        let n = names.last();
        folder_candidates(dir, names.drop_last()) + avatar_suffixes().map_values(|s: Seq<char>| joined(dir, n + s))
    }
}

/// Candidate files in every folder, folder by folder.
pub open spec fn avatar_candidates_of(dirs: Seq<Seq<char>>, names: Seq<Seq<char>>) -> Seq<Seq<char>>
    decreases dirs.len(),
{
    if dirs.len() == 0 {
        seq![]
    } else {
        avatar_candidates_of(dirs.drop_last(), names) + folder_candidates(dirs.last(), names)
    }
}

pub open spec fn texts(v: Seq<String>) -> Seq<Seq<char>> {
    v.map_values(|s: String| s@)
}

pub fn avatar_names(steam_id: &str, account_name: &str) -> (result: Vec<String>)
    ensures
        texts(result@) == avatar_names_of(steam_id@, account_name@),
{
    proof {
        reveal_strlit("_full");
        reveal_strlit("_medium");
        reveal_strlit("_icon");
    }
    let mut names: Vec<String> = Vec::new();
    names.push(steam_id.to_owned());
    if !account_name.is_empty() {
        names.push(account_name.to_owned());
    }
    let mut full = steam_id.to_owned();
    full.append("_full");
    let mut medium = steam_id.to_owned();
    medium.append("_medium");
    let mut icon = steam_id.to_owned();
    icon.append("_icon");
    names.push(full);
    names.push(medium);
    names.push(icon);
    proof {
        assert(texts(names@) =~= avatar_names_of(steam_id@, account_name@));
    }
    names
}

pub fn avatar_dirs(installation: &SteamInstallation) -> (result: Vec<String>)
    ensures
        texts(result@) == avatar_dirs_of(installation.config_dir@, installation.root@),
{
    let mut dirs: Vec<String> = Vec::new();
    dirs.push(join_path(installation.config_dir.as_str(), "avatarcache"));
    dirs.push(join_path(installation.root.as_str(), "config/avatarcache"));
    dirs.push(join_path(installation.root.as_str(), "appcache/avatarcache"));
    proof {
        assert(texts(dirs@) =~= avatar_dirs_of(installation.config_dir@, installation.root@));
    }
    dirs
}

fn suffixes() -> (result: Vec<&'static str>)
    ensures
        result@.map_values(|s: &str| s@) == avatar_suffixes(),
{
    let result = vec![".png", ".jpg", ".jpeg", ".webp"];
    proof {
        assert(result@.map_values(|s: &str| s@) =~= avatar_suffixes());
    }
    result
}

/// Every file name an avatar of the account may have, in the order they are
/// tried.
pub fn avatar_candidates(dirs: &Vec<String>, names: &Vec<String>) -> (result: Vec<String>)
    ensures
        texts(result@) == avatar_candidates_of(texts(dirs@), texts(names@)),
{
    let ends = suffixes();
    let mut out: Vec<String> = Vec::new();
    let mut d: usize = 0;
    proof {
        assert(texts(dirs@).take(0) =~= Seq::<Seq<char>>::empty());
        assert(texts(out@) =~= avatar_candidates_of(texts(dirs@).take(0), texts(names@)));
    }
    while d < dirs.len()
        invariant
            ends@.map_values(|s: &str| s@) == avatar_suffixes(),
            d <= dirs@.len(),
            texts(out@) == avatar_candidates_of(texts(dirs@).take(d as int), texts(names@)),
        decreases dirs@.len() - d,
    {
        let dir = dirs[d].as_str();
        let ghost start = texts(out@);
        let mut k: usize = 0;
        proof {
            assert(texts(names@).take(0) =~= Seq::<Seq<char>>::empty());
            assert(texts(out@) =~= start + folder_candidates(dir@, texts(names@).take(0)));
        }
        while k < names.len()
            invariant
                ends@.map_values(|s: &str| s@) == avatar_suffixes(),
                k <= names@.len(),
                dir@ == texts(dirs@)[d as int],
                texts(out@) == start + folder_candidates(dir@, texts(names@).take(k as int)),
            decreases names@.len() - k,
        {
            let ghost before = texts(out@);
            let name = names[k].as_str();
            let mut e: usize = 0;
            while e < ends.len()
                invariant
                    ends@.map_values(|s: &str| s@) == avatar_suffixes(),
                    e <= ends@.len(),
                    texts(out@) == before + avatar_suffixes().take(e as int).map_values(|s: Seq<char>| joined(dir@, name@ + s)),
                decreases ends@.len() - e,
            {
                let mut file = name.to_owned();
                file.append(ends[e]);
                let ghost mid = texts(out@);
                proof {
                    assert(ends@.map_values(|s: &str| s@)[e as int] == ends@[e as int]@);
                }
                out.push(join_path(dir, file.as_str()));
                proof {
                    assert(avatar_suffixes().take(e + 1) =~= avatar_suffixes().take(e as int).push(avatar_suffixes()[e as int]));
                    assert(texts(out@) =~= mid.push(joined(dir@, name@ + avatar_suffixes()[e as int])));
                    assert(avatar_suffixes().take(e + 1).map_values(|s: Seq<char>| joined(dir@, name@ + s)) =~= avatar_suffixes().take(e as int).map_values(|s: Seq<char>| joined(dir@, name@ + s)).push(joined(dir@, name@ + avatar_suffixes()[e as int])));
                    assert(texts(out@) =~= before + avatar_suffixes().take(e + 1).map_values(|s: Seq<char>| joined(dir@, name@ + s)));
                }
                e += 1;
            }
            proof {
                assert(avatar_suffixes().take(4) =~= avatar_suffixes());
                let ns = texts(names@).take(k + 1);
                assert(ns.drop_last() =~= texts(names@).take(k as int));
                assert(ns.last() == name@);
                assert(texts(out@) =~= start + folder_candidates(dir@, ns));
            }
            k += 1;
        }
        proof {
            assert(texts(names@).take(k as int) =~= texts(names@));
            let ds = texts(dirs@).take(d + 1);
            assert(ds.drop_last() =~= texts(dirs@).take(d as int));
            assert(ds.last() == dir@);
        }
        d += 1;
    }
    proof {
        assert(texts(dirs@).take(d as int) =~= texts(dirs@));
    }
    out
}

/// A file listed in an avatar cache: its path, whether it is a file, and the
/// extension and stem of its name when it has them.
#[derive(Debug, Clone)]
pub struct ListedFile {
    pub path: String,
    pub is_file: bool,
    pub extension: Option<String>,
    pub stem: Option<String>,
}

/// `.` and the lower cased extension, empty without one.
pub open spec fn dotted_extension(f: ListedFile) -> Seq<char> {
    match f.extension {
        Some(e) => "."@ + lowercase(e@),
        None => seq![],
    }
}

pub open spec fn lower_stem(f: ListedFile) -> Seq<char> {
    match f.stem {
        Some(s) => lowercase(s@),
        None => seq![],
    }
}

/// A cached image: a file with one of the avatar endings.
pub open spec fn is_image(f: ListedFile) -> bool {
    f.is_file && avatar_suffixes().contains(dotted_extension(f))
}

/// The image is named after one of the names.
pub open spec fn named_avatar(names: Seq<Seq<char>>) -> spec_fn(ListedFile) -> bool {
    |f: ListedFile| is_image(f) && names.map_values(|n: Seq<char>| lowercase(n)).contains(lower_stem(f))
}

/// The image's name holds the account id.
pub open spec fn id_avatar(steam_id: Seq<char>) -> spec_fn(ListedFile) -> bool {
    |f: ListedFile| is_image(f) && steam_id.len() > 0 && has_infix(lower_stem(f), lowercase(steam_id))
}

/// From the listed files, in order: the first image named after one of the
/// names, otherwise the first whose name holds the id.
pub open spec fn listed_avatar(files: Seq<ListedFile>, names: Seq<Seq<char>>, steam_id: Seq<char>) -> Option<Seq<char>> {
    match first_where(files, named_avatar(names)) {
        Some(i) => Some(files[i].path@),
        None => match first_where(files, id_avatar(steam_id)) {
            Some(i) => Some(files[i].path@),
            None => None,
        },
    }
}

fn is_image_file(file: &ListedFile) -> (result: bool)
    ensures
        result == is_image(*file),
{
    if !file.is_file {
        return false;
    }
    let dotted = match &file.extension {
        Some(e) => {
            let mut d = String::from_str(".");
            d.append(to_lowercase(e.as_str()).as_str());
            proof {
                reveal_strlit(".");
            }
            d
        },
        None => String::new(),
    };
    let ends = suffixes();
    let mut k: usize = 0;
    while k < ends.len()
        invariant
            ends@.map_values(|s: &str| s@) == avatar_suffixes(),
            dotted@ == dotted_extension(*file),
            file.is_file,
            k <= ends@.len(),
            forall|j: int| 0 <= j < k ==> avatar_suffixes()[j] != dotted@,
        decreases ends@.len() - k,
    {
        proof {
            assert(ends@.map_values(|s: &str| s@)[k as int] == ends@[k as int]@);
        }
        if text_eq(ends[k], dotted.as_str()) {
            proof {
                assert(avatar_suffixes()[k as int] == dotted@);
            }
            return true;
        }
        k += 1;
    }
    false
}

fn stem_of(file: &ListedFile) -> (result: String)
    ensures
        result@ == lower_stem(*file),
{
    match &file.stem {
        Some(s) => to_lowercase(s.as_str()),
        None => String::new(),
    }
}

/// The cached avatar among the files listed in the caches, in listing order.
pub fn pick_listed_avatar(files: &Vec<ListedFile>, names: &Vec<String>, steam_id: &str) -> (result: Option<String>)
    ensures
        match listed_avatar(files@, texts(names@), steam_id@) {
            Some(p) => result matches Some(r) && r@ == p,
            None => result is None,
        },
{
    let ghost ns = texts(names@);
    let mut wanted: Vec<String> = Vec::new();
    let mut k: usize = 0;
    while k < names.len()
        invariant
            ns == texts(names@),
            k <= names@.len(),
            wanted@.len() == k,
            forall|j: int| 0 <= j < k ==> (#[trigger] wanted@[j])@ == lowercase(ns[j]),
        decreases names@.len() - k,
    {
        wanted.push(to_lowercase(names[k].as_str()));
        k += 1;
    }
    let ghost lowered = ns.map_values(|n: Seq<char>| lowercase(n));
    proof {
        assert(texts(wanted@) =~= lowered);
    }
    let id_lower = to_lowercase(steam_id);
    let mut fallback: Option<usize> = None;
    let mut i: usize = 0;
    while i < files.len()
        invariant
            ns == texts(names@),
            texts(wanted@) == lowered,
            lowered == ns.map_values(|n: Seq<char>| lowercase(n)),
            id_lower@ == lowercase(steam_id@),
            i <= files@.len(),
            forall|j: int| 0 <= j < i ==> !named_avatar(ns)(#[trigger] files@[j]),
            match fallback {
                Some(f) => f < i && first_where(files@.take(i as int), id_avatar(steam_id@)) == Some(f as int),
                None => forall|j: int| 0 <= j < i ==> !id_avatar(steam_id@)(#[trigger] files@[j]),
            },
        decreases files@.len() - i,
    {
        let file = &files[i];
        let image = is_image_file(file);
        let stem = stem_of(file);
        let mut listed = false;
        let mut w: usize = 0;
        while w < wanted.len()
            invariant
                texts(wanted@) == lowered,
                w <= wanted@.len(),
                listed == exists|j: int| 0 <= j < w && lowered[j] == stem@,
            decreases wanted@.len() - w,
        {
            proof {
                assert(texts(wanted@)[w as int] == wanted@[w as int]@);
            }
            if text_eq(wanted[w].as_str(), stem.as_str()) {
                listed = true;
            }
            w += 1;
        }
        proof {
            assert(listed == lowered.contains(lower_stem(*file)));
        }
        if image && listed {
            proof {
                lemma_first_where_found(files@, named_avatar(ns), i as int);
            }
            return Some(file.path.clone());
        }
        if fallback.is_none() && image && !steam_id.is_empty() && contains_text(stem.as_str(), id_lower.as_str()) {
            proof {
                assert(files@.take(i + 1)[i as int] == files@[i as int]);
                assert forall|j: int| 0 <= j < i implies !id_avatar(steam_id@)(#[trigger] files@.take(i + 1)[j]) by {
                    assert(files@.take(i + 1)[j] == files@[j]);
                }
                lemma_first_where_found(files@.take(i + 1), id_avatar(steam_id@), i as int);
            }
            fallback = Some(i);
        } else {
            proof {
                match fallback {
                    Some(f) => {
                        let t = files@.take(i as int);
                        let t2 = files@.take(i + 1);
                        let c = choose|c: int| 0 <= c < t.len() && id_avatar(steam_id@)(t[c]) && forall|m: int| 0 <= m < c ==> !id_avatar(steam_id@)(#[trigger] t[m]);
                        assert(c == f);
                        assert(t2[f as int] == t[f as int]);
                        assert forall|m: int| 0 <= m < f implies !id_avatar(steam_id@)(#[trigger] t2[m]) by {
                            assert(t2[m] == t[m]);
                        }
                        lemma_first_where_found(t2, id_avatar(steam_id@), f as int);
                    },
                    None => {},
                }
            }
        }
        i += 1;
    }
    proof {
        lemma_first_where_none(files@, named_avatar(ns));
        assert(files@.take(i as int) =~= files@);
        if fallback is None {
            lemma_first_where_none(files@, id_avatar(steam_id@));
        }
    }
    match fallback {
        Some(f) => Some(files[f].path.clone()),
        None => None,
    }
}

} // verus!
