//! Names of maps and resources exchanged between client and server:
//! map file names, base urls, path components, identifiers and the query
//! string of the page.

use vstd::prelude::*;
use vstd::string::*;
use crate::text::{
    seq_ends_with, ends_with, str_eq, spec_split, spec_split_terminator, spec_trim_start_char,
    views, split_char, split_terminator_char, trim_start_char, lemma_split_nonempty,
    lemma_split_excludes, lemma_split_without_separator, lemma_split_terminator_avoids,
};

verus! {

/// The map name with a `.bsp` extension: `s` itself when it already ends
/// with `.bsp`, otherwise `s` followed by `.bsp`.
pub open spec fn spec_fix_bsp_file_name(s: Seq<char>) -> Seq<char> {
    if seq_ends_with(s, ".bsp"@) {
        s
    } else {
        s + ".bsp"@
    }
}

/// Makes sure that a map name carries the `.bsp` extension.
pub fn fix_bsp_file_name(s: &str) -> (res: String)
    ensures
        res@ == spec_fix_bsp_file_name(s@),
{
    if ends_with(s, ".bsp") {
        String::from_str(s)
    } else {
        let mut r = String::from_str(s);
        r.append(".bsp");
        r
    }
}

/// The base url without its last character when that character is `/`.
pub open spec fn spec_sanitize_base_url(s: Seq<char>) -> Seq<char> {
    if seq_ends_with(s, "/"@) {
        s.drop_last()
    } else {
        s
    }
}

/// Drops one trailing `/` from a base url.
pub fn sanitize_base_url(s: &str) -> (res: &str)
    ensures
        res@ == spec_sanitize_base_url(s@),
{
    proof {
        reveal_strlit("/");
    }
    if ends_with(s, "/") {
        let n = s.unicode_len();
        let r = s.substring_char(0, n - 1);
        proof {
            reveal_strlit("/");
            assert(r@ =~= s@.drop_last());
        }
        r
    } else {
        s
    }
}

/// Fetches map resources from a web server rooted at `base_url`.
pub struct WebResourceProvider {
    pub base_url: String,
}

impl WebResourceProvider {
    /// A provider whose base url has had one trailing `/` dropped.
    pub fn new(base_url: &str) -> (res: Self)
        ensures
            res.base_url@ == spec_sanitize_base_url(base_url@),
    {
        WebResourceProvider { base_url: String::from_str(sanitize_base_url(base_url)) }
    }
}

/// `base` followed by each segment, each after a `/`.
pub open spec fn spec_join_url(base: Seq<char>, segments: Seq<Seq<char>>) -> Seq<char>
    decreases segments.len(),
{
    if segments.len() == 0 {
        base
    } else {
        spec_join_url(base, segments.drop_last()) + "/"@ + segments.last()
    }
}

/// The views of a list of string slices.
pub open spec fn slice_views(v: Seq<&str>) -> Seq<Seq<char>> {
    Seq::new(v.len(), |i: int| v[i]@)
}

/// Builds a url from a base and path segments, `base/seg1/seg2/...`.
pub fn join_url(base: &str, segments: &[&str]) -> (res: String)
    ensures
        res@ == spec_join_url(base@, slice_views(segments@)),
{
    let ghost sv = slice_views(segments@);
    let mut url = String::from_str(base);
    let mut i: usize = 0;
    proof {
        assert(sv.take(0) =~= Seq::<Seq<char>>::empty());
    }
    while i < segments.len()
        invariant
            sv == slice_views(segments@),
            i <= segments@.len(),
            url@ == spec_join_url(base@, sv.take(i as int)),
        decreases segments@.len() - i,
    {
        proof {
            assert(sv.take(i + 1).drop_last() =~= sv.take(i as int));
            assert(sv.take(i + 1).last() == segments@[i as int]@);
        }
        url.append("/");
        url.append(segments[i]);
        proof {
            reveal_strlit("/");
        }
        i = i + 1;
    }
    proof {
        assert(sv.take(segments@.len() as int) =~= sv);
    }
    url
}

impl WebResourceProvider {
    /// The url of the archive of a map:
    /// `<base>/<api scope>/<maps endpoint>/<game mod>/<map>.bsp`.
    pub fn map_url(&self, api_scope_version: &str, maps_endpoint: &str, identifier: &ResourceIdentifier) -> (res: String)
        ensures
            res@ == spec_join_url(self.base_url@, seq![
                api_scope_version@,
                maps_endpoint@,
                identifier.game_mod@,
                spec_fix_bsp_file_name(identifier.map_name@),
            ]),
    {
        let map_name = fix_bsp_file_name(identifier.map_name.as_str());
        let segments: [&str; 4] = [api_scope_version, maps_endpoint, identifier.game_mod.as_str(), map_name.as_str()];
        let res = join_url(self.base_url.as_str(), &segments);
        proof {
            assert(slice_views(segments@) =~= seq![
                api_scope_version@,
                maps_endpoint@,
                identifier.game_mod@,
                spec_fix_bsp_file_name(identifier.map_name@),
            ]);
        }
        res
    }

    /// The url of an endpoint of the server: `<base>/<api scope>/<endpoint>`.
    pub fn endpoint_url(&self, api_scope_version: &str, endpoint: &str) -> (res: String)
        ensures
            res@ == spec_join_url(self.base_url@, seq![api_scope_version@, endpoint@]),
    {
        let segments: [&str; 2] = [api_scope_version, endpoint];
        let res = join_url(self.base_url.as_str(), &segments);
        proof {
            assert(slice_views(segments@) =~= seq![api_scope_version@, endpoint@]);
        }
        res
    }

    /// The url of a replay: `<base>/<api scope>/<replays endpoint>/<replay>`.
    pub fn replay_url(&self, api_scope_version: &str, replays_endpoint: &str, replay_name: &str) -> (res: String)
        ensures
            res@ == spec_join_url(self.base_url@, seq![api_scope_version@, replays_endpoint@, replay_name@]),
    {
        let segments: [&str; 3] = [api_scope_version, replays_endpoint, replay_name];
        let res = join_url(self.base_url.as_str(), &segments);
        proof {
            assert(slice_views(segments@) =~= seq![api_scope_version@, replays_endpoint@, replay_name@]);
        }
        res
    }
}

/// Identifies the map that a client asks the server for.
pub struct ResourceIdentifier {
    /// Name of the map.
    pub map_name: String,
    /// Game mod folder name, such as `cstrike`.
    pub game_mod: String,
}

/// A named file sent inside an archive.
pub struct WasmFile {
    pub name: String,
    pub bytes: Vec<u8>,
}

/// The last normal component among path pieces separated by `/`: empty
/// pieces and `.` are skipped from the end; a final `..` gives none.
pub open spec fn last_normal_piece(pieces: Seq<Seq<char>>) -> Option<Seq<char>>
    decreases pieces.len(),
{
    if pieces.len() == 0 {
        None
    } else {
        let p = pieces.last();
        if p.len() == 0 || p == "."@ {
            last_normal_piece(pieces.drop_last())
        } else if p == ".."@ {
            None
        } else {
            Some(p)
        }
    }
}

/// The final component of a `/`-separated path, as `Path::file_name`
/// gives it on Unix: none for an empty path, the root, or a path that
/// ends in `..`.
pub open spec fn spec_file_name(s: Seq<char>) -> Option<Seq<char>> {
    last_normal_piece(spec_split(s, '/'))
}

/// The final component of the path `s`.
pub fn file_name(s: &str) -> (res: Option<String>)
    ensures
        match res {
            Some(r) => spec_file_name(s@) == Some(r@),
            None => spec_file_name(s@) is None,
        },
{
    let pieces = split_char(s, '/');
    let mut k = pieces.len();
    proof {
        reveal_strlit(".");
        reveal_strlit("..");
        assert(pieces@.take(k as int) =~= pieces@);
    }
    while k > 0
        invariant
            k <= pieces@.len(),
            views(pieces@) == spec_split(s@, '/'),
            last_normal_piece(views(pieces@.take(k as int))) == spec_file_name(s@),
        decreases k,
    {
        let p = pieces[k - 1].as_str();
        proof {
            assert(views(pieces@.take(k as int)).drop_last() =~= views(pieces@.take(k - 1)));
            assert(views(pieces@.take(k as int)).last() == p@);
        }
        if p.unicode_len() == 0 || str_eq(p, ".") {
            k = k - 1;
        } else if str_eq(p, "..") {
            return None;
        } else {
            return Some(String::from_str(p));
        }
    }
    proof {
        assert(views(pieces@.take(0)) =~= Seq::<Seq<char>>::empty());
    }
    None
}

/// The identifier with both names reduced to their final path component
/// and the map name given a `.bsp` extension; none when either name has
/// no final component.
pub open spec fn spec_sanitize_identifier(map_name: Seq<char>, game_mod: Seq<char>) -> Option<(Seq<char>, Seq<char>)> {
    match (spec_file_name(map_name), spec_file_name(game_mod)) {
        (Some(m), Some(g)) => Some((spec_fix_bsp_file_name(m), g)),
        _ => None,
    }
}

/// Keeps only the final component of the map name and of the game mod, so
/// that a request cannot reach outside of the game directory.
pub fn sanitize_identifier(identifier: &ResourceIdentifier) -> (res: Option<ResourceIdentifier>)
    ensures
        match res {
            Some(r) => spec_sanitize_identifier(identifier.map_name@, identifier.game_mod@)
                == Some((r.map_name@, r.game_mod@)),
            None => spec_sanitize_identifier(identifier.map_name@, identifier.game_mod@) is None,
        },
{
    let map_name = match file_name(identifier.map_name.as_str()) {
        Some(m) => m,
        None => return None,
    };
    let game_mod = match file_name(identifier.game_mod.as_str()) {
        Some(g) => g,
        None => return None,
    };
    let map_name = fix_bsp_file_name(map_name.as_str());
    Some(ResourceIdentifier { map_name, game_mod })
}

/// The key and value pairs of the page's query string, in order: the
/// text after its leading `?`s is split at `&`, and each piece that splits
/// at `=` into exactly two parts gives a pair.
pub open spec fn spec_location_search(s: Seq<char>) -> Seq<(Seq<char>, Seq<char>)> {
    pairs_of_pieces(spec_split_terminator(spec_trim_start_char(s, '?'), '&'))
}

/// The pairs given by the pieces that split at `=` into exactly two parts.
pub open spec fn pairs_of_pieces(pieces: Seq<Seq<char>>) -> Seq<(Seq<char>, Seq<char>)>
    decreases pieces.len(),
{
    if pieces.len() == 0 {
        Seq::empty()
    } else {
        let prev = pairs_of_pieces(pieces.drop_last());
        let kv = spec_split_terminator(pieces.last(), '=');
        if kv.len() == 2 {
            prev.push((kv[0], kv[1]))
        } else {
            prev
        }
    }
}

/// The character views of a sequence of string pairs.
pub open spec fn pair_views(v: Seq<(String, String)>) -> Seq<(Seq<char>, Seq<char>)> {
    v.map_values(|p: (String, String)| (p.0@, p.1@))
}

/// The map that collecting the pairs yields: a later pair with the same
/// key replaces an earlier one.
pub open spec fn spec_pairs_map(pairs: Seq<(Seq<char>, Seq<char>)>) -> Map<Seq<char>, Seq<char>>
    decreases pairs.len(),
{
    if pairs.len() == 0 {
        Map::empty()
    } else {
        spec_pairs_map(pairs.drop_last()).insert(pairs.last().0, pairs.last().1)
    }
}

/// No key occurs twice.
pub open spec fn keys_distinct(p: Seq<(Seq<char>, Seq<char>)>) -> bool {
    forall|a: int, b: int| 0 <= a < b < p.len() ==> #[trigger] p[a].0 != #[trigger] p[b].0
}

/// The key occurs in the pairs.
pub open spec fn has_key(p: Seq<(Seq<char>, Seq<char>)>, k: Seq<char>) -> bool {
    exists|j: int| 0 <= j < p.len() && (#[trigger] p[j]).0 == k
}

/// The pairs with `kv` put in: a pair with its key takes its value, or it
/// is added at the end.
pub open spec fn spec_upsert(p: Seq<(Seq<char>, Seq<char>)>, kv: (Seq<char>, Seq<char>)) -> Seq<(Seq<char>, Seq<char>)> {
    if has_key(p, kv.0) {
        let j = choose|j: int| 0 <= j < p.len() && (#[trigger] p[j]).0 == kv.0;
        p.update(j, kv)
    } else {
        p.push(kv)
    }
}

/// Each key of the pairs once, with the value of its last pair, in the
/// order in which the keys first occur.
pub open spec fn spec_last_pairs(pairs: Seq<(Seq<char>, Seq<char>)>) -> Seq<(Seq<char>, Seq<char>)>
    decreases pairs.len(),
{
    if pairs.len() == 0 {
        Seq::empty()
    } else {
        spec_upsert(spec_last_pairs(pairs.drop_last()), pairs.last())
    }
}

/// Puts a pair into pairs whose keys are distinct.
fn upsert_pair(res: &mut Vec<(String, String)>, k: String, v: String)
    requires
        keys_distinct(pair_views(old(res)@)),
    ensures
        pair_views(final(res)@) == spec_upsert(pair_views(old(res)@), (k@, v@)),
        keys_distinct(pair_views(final(res)@)),
{
    let ghost p = pair_views(res@);
    let mut j: usize = 0;
    while j < res.len()
        invariant
            p == pair_views(res@),
            p == pair_views(old(res)@),
            keys_distinct(p),
            j <= res@.len(),
            forall|t: int| 0 <= t < j ==> (#[trigger] p[t]).0 != k@,
        decreases res@.len() - j,
    {
        if str_eq(res[j].0.as_str(), k.as_str()) {
            let ghost kv = (k@, v@);
            res.set(j, (k, v));
            proof {
                assert(p[j as int].0 == kv.0);
                assert(has_key(p, kv.0));
                let c = choose|c: int| 0 <= c < p.len() && (#[trigger] p[c]).0 == kv.0;
                assert(c == j);
                assert(pair_views(res@) =~= p.update(j as int, kv));
            }
            return;
        }
        j = j + 1;
    }
    let ghost kv = (k@, v@);
    res.push((k, v));
    proof {
        assert(!has_key(p, kv.0));
        assert(pair_views(res@) =~= p.push(kv));
    }
}

/// Parses the query string of the page into key and value pairs, each key
/// once with its last value, in the order in which keys first occur: the
/// map of `spec_pairs_map`.
pub fn parse_location_search(s: &str) -> (res: Vec<(String, String)>)
    ensures
        pair_views(res@) == spec_last_pairs(spec_location_search(s@)),
{
    let trimmed = trim_start_char(s, '?');
    let pieces = split_terminator_char(trimmed, '&');
    let mut res: Vec<(String, String)> = Vec::new();
    let mut i: usize = 0;
    proof {
        assert(views(pieces@).take(0) =~= Seq::<Seq<char>>::empty());
    }
    while i < pieces.len()
        invariant
            i <= pieces@.len(),
            views(pieces@) == spec_split_terminator(trimmed@, '&'),
            trimmed@ == spec_trim_start_char(s@, '?'),
            pair_views(res@) == spec_last_pairs(pairs_of_pieces(views(pieces@).take(i as int))),
            keys_distinct(pair_views(res@)),
        decreases pieces@.len() - i,
    {
        let kv = split_terminator_char(pieces[i].as_str(), '=');
        proof {
            assert(views(pieces@).take(i + 1).drop_last() =~= views(pieces@).take(i as int));
            assert(views(pieces@).take(i + 1).last() == pieces@[i as int]@);
        }
        if kv.len() == 2 {
            let k = String::from_str(kv[0].as_str());
            let v = String::from_str(kv[1].as_str());
            proof {
                assert(views(kv@)[0] == kv@[0]@);
                assert(views(kv@)[1] == kv@[1]@);
                let pre = pairs_of_pieces(views(pieces@).take(i as int));
                assert(pairs_of_pieces(views(pieces@).take(i + 1)) == pre.push((kv@[0]@, kv@[1]@)));
                assert(pre.push((kv@[0]@, kv@[1]@)).drop_last() =~= pre);
            }
            upsert_pair(&mut res, k, v);
        }
        i = i + 1;
    }
    proof {
        assert(views(pieces@).take(pieces@.len() as int) =~= views(pieces@));
    }
    res
}


/// The pairs that parsing keeps are the map that collecting all pairs
/// makes: each key once, with the value of its last pair.
pub proof fn lemma_last_pairs_map(pairs: Seq<(Seq<char>, Seq<char>)>)
    ensures
        keys_distinct(spec_last_pairs(pairs)),
        forall|k: Seq<char>| #[trigger] spec_pairs_map(pairs).contains_key(k) <==> has_key(spec_last_pairs(pairs), k),
        forall|j: int| 0 <= j < spec_last_pairs(pairs).len() ==>
            spec_pairs_map(pairs)[(#[trigger] spec_last_pairs(pairs)[j]).0] == spec_last_pairs(pairs)[j].1,
    decreases pairs.len(),
{
    if pairs.len() > 0 {
        let init = pairs.drop_last();
        lemma_last_pairs_map(init);
        let prev = spec_last_pairs(init);
        let m = spec_pairs_map(init);
        let kv = pairs.last();
        let cur = spec_last_pairs(pairs);
        assert(cur == spec_upsert(prev, kv));
        assert(spec_pairs_map(pairs) == m.insert(kv.0, kv.1));
        if has_key(prev, kv.0) {
            let j0 = choose|j: int| 0 <= j < prev.len() && (#[trigger] prev[j]).0 == kv.0;
            assert(cur == prev.update(j0, kv));
            assert forall|k: Seq<char>| #[trigger] spec_pairs_map(pairs).contains_key(k) <==> has_key(cur, k) by {
                if has_key(prev, k) {
                    let j = choose|j: int| 0 <= j < prev.len() && (#[trigger] prev[j]).0 == k;
                    assert(cur[j].0 == k);
                }
                if has_key(cur, k) {
                    let j = choose|j: int| 0 <= j < cur.len() && (#[trigger] cur[j]).0 == k;
                    assert(prev[j].0 == k);
                }
            }
        } else {
            assert(cur == prev.push(kv));
            assert forall|k: Seq<char>| #[trigger] spec_pairs_map(pairs).contains_key(k) <==> has_key(cur, k) by {
                if has_key(prev, k) {
                    let j = choose|j: int| 0 <= j < prev.len() && (#[trigger] prev[j]).0 == k;
                    assert(cur[j].0 == k);
                }
                if has_key(cur, k) {
                    let j = choose|j: int| 0 <= j < cur.len() && (#[trigger] cur[j]).0 == k;
                    if j < prev.len() {
                        assert(prev[j].0 == k);
                    }
                }
                if k == kv.0 {
                    assert(cur[prev.len() as int].0 == k);
                }
            }
            assert forall|j: int| 0 <= j < prev.len() implies (#[trigger] prev[j]).0 != kv.0 by {}
        }
    }
}

/// Fixing a map name gives a name that ends with `.bsp`, and fixing it
/// again changes nothing.
pub proof fn lemma_fix_bsp_file_name(s: Seq<char>)
    ensures
        seq_ends_with(spec_fix_bsp_file_name(s), ".bsp"@),
        spec_fix_bsp_file_name(spec_fix_bsp_file_name(s)) == spec_fix_bsp_file_name(s),
{
    if !seq_ends_with(s, ".bsp"@) {
        let r = s + ".bsp"@;
        assert(r.subrange(r.len() - ".bsp"@.len(), r.len() as int) =~= ".bsp"@);
    }
}

/// A final path component is never empty, `.`, `..`, nor holds a `/`.
pub proof fn lemma_last_normal_piece(pieces: Seq<Seq<char>>)
    requires
        forall|i: int| 0 <= i < pieces.len() ==> !(#[trigger] pieces[i]).contains('/'),
    ensures
        last_normal_piece(pieces) matches Some(p) ==> (p.len() > 0 && p != "."@ && p != ".."@
            && !p.contains('/')),
    decreases pieces.len(),
{
    if pieces.len() > 0 {
        let p = pieces.last();
        assert(pieces[pieces.len() - 1] == p);
        if p.len() == 0 || p == "."@ {
            assert forall|i: int| 0 <= i < pieces.drop_last().len() implies !(#[trigger] pieces.drop_last()[i]).contains('/') by {
                assert(pieces.drop_last()[i] == pieces[i]);
            }
            lemma_last_normal_piece(pieces.drop_last());
        }
    }
}

/// The final component of a path is a name without `/` that is neither
/// empty, `.` nor `..`; such a name is its own final component.
pub proof fn lemma_file_name(s: Seq<char>)
    ensures
        spec_file_name(s) matches Some(p) ==> (p.len() > 0 && p != "."@ && p != ".."@ && !p.contains('/')
            && spec_file_name(p) == Some(p)),
{
    lemma_split_excludes(s, '/');
    lemma_last_normal_piece(spec_split(s, '/'));
    if let Some(p) = spec_file_name(s) {
        lemma_split_without_separator(p, '/');
        assert(seq![p].last() == p);
    }
}

/// A sanitized identifier names a `.bsp` map and a game mod by single path
/// components (no `/`, neither empty, `.` nor `..`), and sanitizing it
/// again gives it back unchanged.
pub proof fn lemma_sanitize_identifier(map_name: Seq<char>, game_mod: Seq<char>)
    ensures
        spec_sanitize_identifier(map_name, game_mod) matches Some((m, g)) ==> {
            &&& seq_ends_with(m, ".bsp"@)
            &&& !m.contains('/') && m != "."@ && m != ".."@ && m.len() > 0
            &&& !g.contains('/') && g != "."@ && g != ".."@ && g.len() > 0
            &&& spec_sanitize_identifier(m, g) == Some((m, g))
        },
{
    reveal_strlit(".bsp");
    reveal_strlit(".");
    reveal_strlit("..");
    lemma_file_name(map_name);
    lemma_file_name(game_mod);
    if let Some((m, g)) = spec_sanitize_identifier(map_name, game_mod) {
        let m0 = spec_file_name(map_name).unwrap();
        lemma_fix_bsp_file_name(m0);
        assert(!m.contains('/')) by {
            if !seq_ends_with(m0, ".bsp"@) {
                assert(m == m0 + ".bsp"@);
                if m.contains('/') {
                    let j = choose|j: int| 0 <= j < m.len() && m[j] == '/';
                    if j < m0.len() {
                        assert(m0[j] == '/');
                    } else {
                        assert(".bsp"@[j - m0.len()] == '/');
                    }
                }
            }
        }
        assert(m.len() >= 4);
        assert(m != "."@ && m != ".."@) by {
            assert("."@.len() == 1);
            assert(".."@.len() == 2);
        }
        lemma_split_without_separator(m, '/');
        assert(seq![m].last() == m);
        assert(spec_file_name(m) == Some(m));
    }
}

/// Pieces that avoid `&` give pairs whose keys and values hold neither
/// `&` nor `=`.
proof fn lemma_pairs_avoid(pieces: Seq<Seq<char>>)
    requires
        forall|i: int| 0 <= i < pieces.len() ==> !(#[trigger] pieces[i]).contains('&'),
    ensures
        forall|i: int| 0 <= i < pairs_of_pieces(pieces).len() ==> {
            let (k, v) = #[trigger] pairs_of_pieces(pieces)[i];
            &&& !k.contains('&') && !k.contains('=')
            &&& !v.contains('&') && !v.contains('=')
        },
    decreases pieces.len(),
{
    if pieces.len() > 0 {
        let init = pieces.drop_last();
        assert forall|i: int| 0 <= i < init.len() implies !(#[trigger] init[i]).contains('&') by {
            assert(init[i] == pieces[i]);
        }
        lemma_pairs_avoid(init);
        let last = pieces.last();
        assert(pieces[pieces.len() - 1] == last);
        lemma_split_terminator_avoids(last, '=', '&');
        lemma_split_terminator_avoids(last, '=', '=');
        let prev = pairs_of_pieces(init);
        let all = pairs_of_pieces(pieces);
        assert forall|i: int| 0 <= i < all.len() implies {
            let (k, v) = #[trigger] all[i];
            &&& !k.contains('&') && !k.contains('=')
            &&& !v.contains('&') && !v.contains('=')
        } by {
            if i < prev.len() {
                let kv = spec_split_terminator(last, '=');
                if kv.len() == 2 {
                    assert(all[i] == prev[i]);
                } else {
                    assert(all[i] == prev[i]);
                }
            }
        }
    }
}

/// The keys and values read from the query string hold neither `&` nor
/// `=`: every separator splits.
pub proof fn lemma_location_search_pairs(s: Seq<char>)
    ensures
        forall|i: int| 0 <= i < spec_location_search(s).len() ==> {
            let (k, v) = #[trigger] spec_location_search(s)[i];
            &&& !k.contains('&') && !k.contains('=')
            &&& !v.contains('&') && !v.contains('=')
        },
{
    let t = spec_trim_start_char(s, '?');
    lemma_split_terminator_avoids(t, '&', '&');
    lemma_pairs_avoid(spec_split_terminator(t, '&'));
}

} // verus!
