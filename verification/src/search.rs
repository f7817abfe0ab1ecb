//! Searching the game directory for a resource: the game mods that are
//! checked in turn, the candidate paths, and the choice of the first one
//! found on disk, case sensitive or not.
//!
//! Reading the disk is left to the caller, which probes each candidate
//! that `search_candidates` lists and hands the observations back.

use vstd::prelude::*;
use vstd::string::*;
use crate::text::{seq_ends_with, seq_starts_with, ends_with, starts_with, str_eq, spec_split, split_char, views, lemma_split_nonempty};
use crate::naming::spec_file_name;
use crate::naming::file_name;

verus! {

/// `Path::join` on Unix: an absolute `b` replaces `a`; otherwise `b` is
/// appended to `a`, with a `/` in between when `a` is not empty and does
/// not already end with one.
pub open spec fn spec_join(a: Seq<char>, b: Seq<char>) -> Seq<char> {
    if b.len() > 0 && b[0] == '/' {
        b
    } else if a.len() > 0 && a.last() != '/' {
        a + "/"@ + b
    } else {
        a + b
    }
}

/// Joins two paths as `Path::join` does on Unix.
pub fn join(a: &str, b: &str) -> (res: String)
    ensures
        res@ == spec_join(a@, b@),
{
    let na = a.unicode_len();
    let nb = b.unicode_len();
    if nb > 0 && b.get_char(0) == '/' {
        String::from_str(b)
    } else if na > 0 && a.get_char(na - 1) != '/' {
        let mut r = String::from_str(a);
        r.append("/");
        r.append(b);
        r
    } else {
        let mut r = String::from_str(a);
        r.append(b);
        r
    }
}

/// `s` with every non-overlapping occurrence of `pat`, from the left,
/// taken out, as `str::replace(pat, "")` gives it.
pub open spec fn spec_remove_all(s: Seq<char>, pat: Seq<char>) -> Seq<char>
    decreases s.len(),
{
    if s.len() == 0 {
        s
    } else if pat.len() > 0 && seq_starts_with(s, pat) {
        spec_remove_all(s.skip(pat.len() as int), pat)
    } else {
        seq![s[0]] + spec_remove_all(s.drop_first(), pat)
    }
}

/// Takes every occurrence of `pat` out of `s`, as `str::replace(pat, "")`
/// does.
pub fn remove_all(s: &str, pat: &str) -> (res: String)
    requires
        pat@.len() > 0,
    ensures
        res@ == spec_remove_all(s@, pat@),
{
    let n = s.unicode_len();
    let m = pat.unicode_len();
    let mut out = String::new();
    let mut i: usize = 0;
    proof {
        assert(s@.skip(0) =~= s@);
    }
    while i < n
        invariant
            n == s@.len(),
            m == pat@.len(),
            m > 0,
            i <= n,
            out@ + spec_remove_all(s@.skip(i as int), pat@) == spec_remove_all(s@, pat@),
        decreases n - i,
    {
        let rest = s.substring_char(i, n);
        proof {
            assert(rest@ =~= s@.skip(i as int));
        }
        if starts_with(rest, pat) {
            proof {
                assert(s@.skip(i as int).skip(m as int) =~= s@.skip(i + m));
            }
            i = i + m;
        } else {
            let one = s.substring_char(i, i + 1);
            proof {
                assert(one@ =~= seq![s@[i as int]]);
                assert(s@.skip(i as int).drop_first() =~= s@.skip(i + 1));
                assert(s@.skip(i as int)[0] == s@[i as int]);
            }
            let ghost old_out = out@;
            out.append(one);
            proof {
                assert(old_out + (seq![s@[i as int]] + spec_remove_all(s@.skip(i + 1), pat@))
                    =~= out@ + spec_remove_all(s@.skip(i + 1), pat@));
            }
            i = i + 1;
        }
    }
    proof {
        assert(s@.skip(i as int).len() == 0);
        assert(out@ + spec_remove_all(s@.skip(i as int), pat@) =~= out@);
    }
    out
}

/// The game mods in which a resource of `game_mod` is looked for, in
/// order: the mod itself first; then, for `valve`, `valve_downloads`;
/// for any other mod, `valve`, then its downloads twin (the mod without
/// `_downloads` when its name ends with `downloads`, otherwise the mod
/// followed by `_downloads`), then `valve_downloads`.
pub open spec fn spec_game_mods_to_check(game_mod: Seq<char>) -> Seq<Seq<char>> {
    if game_mod == "valve"@ {
        seq![game_mod, "valve_downloads"@]
    } else if seq_ends_with(game_mod, "downloads"@) {
        seq![game_mod, "valve"@, spec_remove_all(game_mod, "_downloads"@), "valve_downloads"@]
    } else {
        seq![game_mod, "valve"@, game_mod + "_downloads"@, "valve_downloads"@]
    }
}

/// The game mods to check for a resource of `game_mod`, the mod itself
/// included.
pub fn get_game_mods_to_check(game_mod: &str) -> (res: Vec<String>)
    ensures
        views_of(res@) == spec_game_mods_to_check(game_mod@),
{
    let is_valve = str_eq(game_mod, "valve");
    let is_download = ends_with(game_mod, "downloads");
    let mut mods: Vec<String> = Vec::new();
    mods.push(String::from_str(game_mod));
    if is_valve {
        mods.push(String::from_str("valve_downloads"));
    } else {
        mods.push(String::from_str("valve"));
        if is_download {
            proof {
                reveal_strlit("_downloads");
            }
            mods.push(remove_all(game_mod, "_downloads"));
        } else {
            let mut twin = String::from_str(game_mod);
            twin.append("_downloads");
            mods.push(twin);
        }
        mods.push(String::from_str("valve_downloads"));
    }
    proof {
        assert(views_of(mods@) =~= spec_game_mods_to_check(game_mod@));
    }
    mods
}

/// The mods to check start with the mod itself and end with
/// `valve_downloads`; `valve` is checked too.
pub proof fn lemma_game_mods_to_check(game_mod: Seq<char>)
    ensures
        spec_game_mods_to_check(game_mod)[0] == game_mod,
        spec_game_mods_to_check(game_mod).last() == "valve_downloads"@,
        spec_game_mods_to_check(game_mod).contains("valve"@),
{
    let m = spec_game_mods_to_check(game_mod);
    if game_mod == "valve"@ {
        assert(m[0] == "valve"@);
    } else {
        assert(m[1] == "valve"@);
    }
}

/// The character views of a sequence of strings.
pub open spec fn views_of(v: Seq<String>) -> Seq<Seq<char>> {
    v.map_values(|x: String| x@)
}

/// Searches the files of a game installation.
pub struct NativeResourceProvider {
    /// Path to the game directory, the one that holds the game mods.
    pub game_dir: String,
}

impl NativeResourceProvider {
    /// A provider for the game directory `game_dir`.
    pub fn new(game_dir: &str) -> (res: Self)
        ensures
            res.game_dir@ == game_dir@,
    {
        NativeResourceProvider { game_dir: String::from_str(game_dir) }
    }
}

/// The path of `relative_path` inside the game mod `game_mod` of
/// `game_dir`.
pub open spec fn spec_mod_path(game_dir: Seq<char>, game_mod: Seq<char>, relative_path: Seq<char>) -> Seq<char> {
    spec_join(spec_join(game_dir, game_mod), relative_path)
}

/// The paths that are tried in turn for a resource: the path inside
/// `game_mod`, then the path inside each mod of
/// `spec_game_mods_to_check(game_mod)`.
pub open spec fn spec_search_candidates(game_dir: Seq<char>, game_mod: Seq<char>, relative_path: Seq<char>) -> Seq<Seq<char>> {
    seq![spec_mod_path(game_dir, game_mod, relative_path)]
        + spec_game_mods_to_check(game_mod).map_values(|m: Seq<char>| spec_mod_path(game_dir, m, relative_path))
}

/// Lists the paths that `search_game_resource` tries, in order.
pub fn search_candidates(game_dir: &str, game_mod: &str, relative_path: &str) -> (res: Vec<String>)
    ensures
        views_of(res@) == spec_search_candidates(game_dir@, game_mod@, relative_path@),
{
    let mods = get_game_mods_to_check(game_mod);
    let mut res: Vec<String> = Vec::new();
    let first = join(join(game_dir, game_mod).as_str(), relative_path);
    res.push(first);
    let mut i: usize = 0;
    while i < mods.len()
        invariant
            i <= mods@.len(),
            views_of(mods@) == spec_game_mods_to_check(game_mod@),
            views_of(res@) == seq![spec_mod_path(game_dir@, game_mod@, relative_path@)]
                + views_of(mods@).take(i as int).map_values(|m: Seq<char>| spec_mod_path(game_dir@, m, relative_path@)),
        decreases mods@.len() - i,
    {
        let p = join(join(game_dir, mods[i].as_str()).as_str(), relative_path);
        let ghost old_res = res@;
        res.push(p);
        proof {
            assert(views_of(mods@).take(i + 1) =~= views_of(mods@).take(i as int).push(mods@[i as int]@));
            assert(views_of(res@) =~= views_of(old_res).push(p@));
            assert(views_of(res@) =~= seq![spec_mod_path(game_dir@, game_mod@, relative_path@)]
                + views_of(mods@).take(i + 1).map_values(|m: Seq<char>| spec_mod_path(game_dir@, m, relative_path@)));
        }
        i = i + 1;
    }
    proof {
        assert(views_of(mods@).take(mods@.len() as int) =~= views_of(mods@));
    }
    res
}


/// What `str::to_lowercase` returns for a text: its Unicode lowercase
/// mapping, in which a character may become several and a final capital
/// sigma lowers by its place in the word.
pub uninterp spec fn str_lowercase(s: Seq<char>) -> Seq<char>;

/// Calls `str::to_lowercase`. The contract only names its result: the
/// Unicode lowercase mapping is not stated here.
#[verifier::external_body]
fn to_lowercase(s: &str) -> (res: String)
    ensures
        res@ == str_lowercase(s@),
{
    s.to_lowercase()
}

/// One entry of a directory listing, in the order in which `read_dir`
/// yields it.
pub struct DirEntry {
    /// The entry's file name; none when it is not valid UTF-8.
    pub name: Option<String>,
    /// Whether the entry is a regular file.
    pub is_file: bool,
}

/// What the disk shows of one candidate path.
pub struct ResourceProbe {
    /// Whether the candidate path exists.
    pub exists: bool,
    /// `Path::parent` of the candidate, when it has one.
    pub parent: Option<String>,
    /// The entries of the parent directory in `read_dir` order; none when
    /// the directory cannot be read.
    pub entries: Option<Vec<DirEntry>>,
}

/// The index of the entry that a case insensitive search picks, starting
/// at entry `i`: entries that are not files are passed over; the first
/// file whose name is not UTF-8 ends the search with none; otherwise the
/// first file whose lowercase name equals `target` is picked.
pub open spec fn insensitive_match_from(target: Seq<char>, entries: Seq<DirEntry>, i: int) -> Option<int>
    decreases entries.len() - i,
{
    if i < 0 || i >= entries.len() {
        None
    } else if !entries[i].is_file {
        insensitive_match_from(target, entries, i + 1)
    } else {
        match entries[i].name {
            None => None,
            Some(n) => if str_lowercase(n@) == target {
                Some(i)
            } else {
                insensitive_match_from(target, entries, i + 1)
            },
        }
    }
}

/// The path that a case insensitive search finds for `path`: the parent
/// joined with the name of the entry whose lowercase name equals the
/// lowercase file name of `path`; none when `path` has no file name or no
/// parent, when the parent cannot be read, or when no entry matches.
pub open spec fn spec_case_insensitive(path: Seq<char>, parent: Option<String>, entries: Option<Vec<DirEntry>>) -> Option<Seq<char>> {
    match (spec_file_name(path), parent, entries) {
        (Some(f), Some(par), Some(es)) => match insensitive_match_from(str_lowercase(f), es@, 0) {
            Some(k) => Some(spec_join(par@, es@[k].name.unwrap()@)),
            None => None,
        },
        _ => None,
    }
}

/// Looks in the parent directory of `path` for a file whose name matches
/// the file name of `path` regardless of case.
pub fn case_insensitive_file_search(path: &str, parent: &Option<String>, entries: &Option<Vec<DirEntry>>) -> (res: Option<String>)
    ensures
        match res {
            Some(r) => spec_case_insensitive(path@, *parent, *entries) == Some(r@),
            None => spec_case_insensitive(path@, *parent, *entries) is None,
        },
{
    let par = match parent {
        Some(p) => p,
        None => return None,
    };
    let f = match file_name(path) {
        Some(f) => f,
        None => return None,
    };
    let es = match entries {
        Some(es) => es,
        None => return None,
    };
    let target = to_lowercase(f.as_str());
    let mut i: usize = 0;
    while i < es.len()
        invariant
            i <= es@.len(),
            insensitive_match_from(target@, es@, i as int) == insensitive_match_from(target@, es@, 0),
            *parent == Some(*par),
            *entries == Some(*es),
            spec_file_name(path@) == Some(f@),
            target@ == str_lowercase(f@),
        decreases es@.len() - i,
    {
        let e = &es[i];
        if e.is_file {
            match &e.name {
                None => {
                    proof {
                        assert(insensitive_match_from(target@, es@, i as int) is None);
                    }
                    return None;
                },
                Some(n) => {
                    let lower = to_lowercase(n.as_str());
                    if str_eq(lower.as_str(), target.as_str()) {
                        proof {
                            assert(insensitive_match_from(target@, es@, i as int) == Some(i as int));
                        }
                        return Some(join(par.as_str(), n.as_str()));
                    }
                    proof {
                        assert(insensitive_match_from(target@, es@, i as int)
                            == insensitive_match_from(target@, es@, i + 1));
                    }
                },
            }
        } else {
            proof {
                assert(insensitive_match_from(target@, es@, i as int)
                    == insensitive_match_from(target@, es@, i + 1));
            }
        }
        i = i + 1;
    }
    proof {
        assert(insensitive_match_from(target@, es@, i as int) is None);
    }
    None
}

/// The path that a candidate yields: with a case insensitive search, the
/// match found in its directory when there is one; otherwise the
/// candidate itself when it exists.
pub open spec fn spec_probe_hit(candidate: Seq<char>, case_sensitive: bool, probe: ResourceProbe) -> Option<Seq<char>> {
    let found = if case_sensitive {
        None
    } else {
        spec_case_insensitive(candidate, probe.parent, probe.entries)
    };
    match found {
        Some(p) => Some(p),
        None => if probe.exists {
            Some(candidate)
        } else {
            None
        },
    }
}

/// The first hit among the candidates from index `i` on.
pub open spec fn first_hit_from(candidates: Seq<Seq<char>>, case_sensitive: bool, probes: Seq<ResourceProbe>, i: int) -> Option<Seq<char>>
    decreases candidates.len() - i,
{
    if i < 0 || i >= candidates.len() || i >= probes.len() {
        None
    } else {
        match spec_probe_hit(candidates[i], case_sensitive, probes[i]) {
            Some(p) => Some(p),
            None => first_hit_from(candidates, case_sensitive, probes, i + 1),
        }
    }
}

/// The resource found for `relative_path`: the first candidate of
/// `spec_search_candidates` that yields a path.
pub open spec fn spec_search_game_resource(
    game_dir: Seq<char>,
    game_mod: Seq<char>,
    relative_path: Seq<char>,
    case_sensitive: bool,
    probes: Seq<ResourceProbe>,
) -> Option<Seq<char>> {
    first_hit_from(spec_search_candidates(game_dir, game_mod, relative_path), case_sensitive, probes, 0)
}

/// Searches the game files for `relative_path`, switching between game
/// mods; `probes[i]` is what the disk shows of the `i`-th path of
/// `search_candidates`.
pub fn search_game_resource(
    game_dir: &str,
    game_mod: &str,
    relative_path: &str,
    case_sensitive: bool,
    probes: &Vec<ResourceProbe>,
) -> (res: Option<String>)
    requires
        probes@.len() == spec_search_candidates(game_dir@, game_mod@, relative_path@).len(),
    ensures
        match res {
            Some(r) => spec_search_game_resource(game_dir@, game_mod@, relative_path@, case_sensitive, probes@) == Some(r@),
            None => spec_search_game_resource(game_dir@, game_mod@, relative_path@, case_sensitive, probes@) is None,
        },
{
    let candidates = search_candidates(game_dir, game_mod, relative_path);
    let ghost cs = spec_search_candidates(game_dir@, game_mod@, relative_path@);
    let mut i: usize = 0;
    while i < candidates.len()
        invariant
            i <= candidates@.len(),
            views_of(candidates@) == cs,
            cs == spec_search_candidates(game_dir@, game_mod@, relative_path@),
            probes@.len() == cs.len(),
            first_hit_from(cs, case_sensitive, probes@, i as int) == first_hit_from(cs, case_sensitive, probes@, 0),
        decreases candidates@.len() - i,
    {
        let c = candidates[i].as_str();
        let probe = &probes[i];
        proof {
            assert(cs[i as int] == c@);
        }
        let found = if !case_sensitive {
            case_insensitive_file_search(c, &probe.parent, &probe.entries)
        } else {
            None
        };
        match found {
            Some(p) => {
                proof {
                    assert(spec_probe_hit(cs[i as int], case_sensitive, probes@[i as int]) == Some(p@));
                    assert(first_hit_from(cs, case_sensitive, probes@, i as int) == Some(p@));
                }
                return Some(p);
            },
            None => {},
        }
        proof {
            assert(spec_case_insensitive(c@, probe.parent, probe.entries) is None || case_sensitive);
        }
        if probe.exists {
            proof {
                assert(spec_probe_hit(cs[i as int], case_sensitive, probes@[i as int]) == Some(c@));
                assert(first_hit_from(cs, case_sensitive, probes@, i as int) == Some(c@));
            }
            return Some(String::from_str(c));
        }
        proof {
            assert(spec_probe_hit(cs[i as int], case_sensitive, probes@[i as int]) is None);
            assert(first_hit_from(cs, case_sensitive, probes@, i as int)
                == first_hit_from(cs, case_sensitive, probes@, i + 1));
        }
        i = i + 1;
    }
    proof {
        assert(first_hit_from(cs, case_sensitive, probes@, i as int) is None);
    }
    None
}

/// The pieces after the first that are path components: empty pieces and
/// `.` are left out, as `Path::components` does past the first one.
pub open spec fn later_components(pieces: Seq<Seq<char>>) -> Seq<Seq<char>>
    decreases pieces.len(),
{
    if pieces.len() == 0 {
        Seq::empty()
    } else {
        let prev = later_components(pieces.drop_last());
        let p = pieces.last();
        if p.len() == 0 || p == "."@ {
            prev
        } else {
            prev.push(p)
        }
    }
}

/// Components joined with `/`, as collecting them into a `PathBuf` does.
pub open spec fn joined_components(comps: Seq<Seq<char>>) -> Seq<char>
    decreases comps.len(),
{
    if comps.len() == 0 {
        Seq::empty()
    } else if comps.len() == 1 {
        comps[0]
    } else {
        joined_components(comps.drop_last()) + "/"@ + comps.last()
    }
}

/// The first component of a path when it is a normal one (the path is
/// neither empty, nor absolute, nor starts with `.` or `..`), with the
/// path made of the components after it.
pub open spec fn spec_split_game_mod(path: Seq<char>) -> Option<(Seq<char>, Seq<char>)> {
    let pieces = spec_split(path, '/');
    let first = pieces[0];
    if path.len() == 0 || first.len() == 0 || first == "."@ || first == ".."@ {
        None
    } else {
        Some((first, joined_components(later_components(pieces.skip(1)))))
    }
}

/// Where a file under a game mod is looked for when it is not where its
/// path says: the same path under `valve`, then under `cstrike` for a
/// downloads mod or `cstrike_downloads` otherwise. A path under `valve`,
/// or one that does not start with a game mod, has no other place.
pub open spec fn spec_proper_candidates(path: Seq<char>) -> Seq<Seq<char>> {
    match spec_split_game_mod(path) {
        None => Seq::empty(),
        Some((game_mod, rest)) => if game_mod == "valve"@ {
            Seq::empty()
        } else {
            seq![
                spec_join("valve"@, rest),
                spec_join(if seq_ends_with(game_mod, "downloads"@) { "cstrike"@ } else { "cstrike_downloads"@ }, rest),
            ]
        },
    }
}

/// Lists the other places of a file under a game mod, in order.
pub fn proper_file_candidates(file_path: &str) -> (res: Vec<String>)
    ensures
        views(res@) == spec_proper_candidates(file_path@),
{
    let pieces = split_char(file_path, '/');
    let ghost pv = views(pieces@);
    proof {
        lemma_split_nonempty(file_path@, '/');
    }
    let first = pieces[0].as_str();
    if file_path.unicode_len() == 0 || first.unicode_len() == 0 || str_eq(first, ".") || str_eq(first, "..") {
        return Vec::new();
    }
    if str_eq(first, "valve") {
        return Vec::new();
    }
    let mut rest = String::new();
    let mut count: usize = 0;
    let mut i: usize = 1;
    proof {
        assert(pv.skip(1).take(0) =~= Seq::<Seq<char>>::empty());
    }
    while i < pieces.len()
        invariant
            pv == views(pieces@),
            pv == spec_split(file_path@, '/'),
            1 <= i <= pieces@.len(),
            count == later_components(pv.skip(1).take(i - 1)).len(),
            count <= i - 1,
            rest@ == joined_components(later_components(pv.skip(1).take(i - 1))),
        decreases pieces@.len() - i,
    {
        let p = pieces[i].as_str();
        proof {
            assert(pv.skip(1).take(i as int).drop_last() =~= pv.skip(1).take(i - 1));
            assert(pv.skip(1).take(i as int).last() == p@);
        }
        if p.unicode_len() == 0 || str_eq(p, ".") {
        } else {
            let ghost before = later_components(pv.skip(1).take(i - 1));
            if count > 0 {
                rest.append("/");
            }
            rest.append(p);
            proof {
                let now = before.push(p@);
                assert(now.drop_last() =~= before);
                if count == 0 {
                    assert(rest@ =~= p@);
                }
            }
            count = count + 1;
        }
        i = i + 1;
    }
    proof {
        assert(pv.skip(1).take(pieces@.len() - 1) =~= pv.skip(1));
    }
    let second: &str = if ends_with(first, "downloads") { "cstrike" } else { "cstrike_downloads" };
    let mut res: Vec<String> = Vec::new();
    res.push(join("valve", rest.as_str()));
    res.push(join(second, rest.as_str()));
    proof {
        assert(views(res@) =~= spec_proper_candidates(file_path@));
    }
    res
}

/// The file found for `file_path`: the path itself when it exists, else
/// the first of its other places that exists.
pub open spec fn spec_proper_file_searching(file_path: Seq<char>, file_exists: bool, candidate_exists: Seq<bool>) -> Option<Seq<char>> {
    if file_exists {
        Some(file_path)
    } else {
        let cs = spec_proper_candidates(file_path);
        if cs.len() > 0 && candidate_exists[0] {
            Some(cs[0])
        } else if cs.len() > 1 && candidate_exists[1] {
            Some(cs[1])
        } else {
            None
        }
    }
}

/// Finds a file whose path starts with its game mod, trying the other
/// game mods when it is not there. `file_exists` tells whether the path
/// exists, and `candidate_exists[i]` whether the `i`-th path of
/// `proper_file_candidates` does.
pub fn proper_file_searching(file_path: &str, file_exists: bool, candidate_exists: &Vec<bool>) -> (res: Option<String>)
    requires
        candidate_exists@.len() == spec_proper_candidates(file_path@).len(),
    ensures
        match res {
            Some(r) => spec_proper_file_searching(file_path@, file_exists, candidate_exists@) == Some(r@),
            None => spec_proper_file_searching(file_path@, file_exists, candidate_exists@) is None,
        },
{
    if file_exists {
        return Some(String::from_str(file_path));
    }
    let candidates = proper_file_candidates(file_path);
    let mut i: usize = 0;
    while i < candidates.len()
        invariant
            !file_exists,
            views(candidates@) == spec_proper_candidates(file_path@),
            candidate_exists@.len() == candidates@.len(),
            candidates@.len() == 0 || candidates@.len() == 2,
            i <= candidates@.len(),
            forall|j: int| 0 <= j < i ==> !candidate_exists@[j],
        decreases candidates@.len() - i,
    {
        if candidate_exists[i] {
            let r = candidates[i].clone();
            proof {
                assert(views(candidates@)[i as int] == r@);
            }
            return Some(r);
        }
        i = i + 1;
    }
    None
}

} // verus!
