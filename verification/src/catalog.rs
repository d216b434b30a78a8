//! The firmware catalog: which firmware versions are on disk for which
//! board, keyed by `"{BoardType}_{Protocol}"`. It is built once from the
//! file names found under the firmware directory and read for the rest of
//! the process.

use vstd::prelude::*;
use crate::strutil::{
    find_sub, first_match, last_match, lemma_first_match_at, lemma_first_match_none,
    lemma_last_match_at, lemma_last_match_none, rfind_sub, scan_to, str_eq,
};
use crate::parse::upper_eq;
use crate::version::{
    canon_string, canon_version, is_u32_numeral, lex_less, lex_lt, numeral_body, numeral_val,
    parse_u32,
};

verus! {

/// One file found under the firmware directory: its bare file name and the
/// full path it resolves to.
pub struct FirmwareFile {
    pub name: String,
    pub path: String,
}

/// Name and path views of a list of firmware files.
pub open spec fn files_views(fs: Seq<FirmwareFile>) -> Seq<(Seq<char>, Seq<char>)> {
    fs.map_values(|f: FirmwareFile| (f.name@, f.path@))
}

/// The parts a firmware file name must carry:
/// `{BoardType}_{Protocol}_firmware_v_{major}_{minor}.txt`. The extension is
/// read without regard to case; the version numbers must parse as `u32`.
/// Any other name is skipped.
pub open spec fn firmware_name_spec(name: Seq<char>) -> Option<(Seq<char>, Seq<char>, int, int)> {
    match last_match(name, seq!['.']) {
        Some(p) => {
            if p > 0 && upper_eq(name.subrange(p + 1, name.len() as int), ("txt")@) {
                firmware_stem_spec(name.subrange(0, p))
            } else {
                None
            }
        },
        None => None,
    }
}

/// The parts of a firmware file stem, split at the first `"_firmware_v_"`,
/// with the board type and protocol split at the last `'_'` before it and
/// the version read as exactly two `'_'`-separated numbers after it.
pub open spec fn firmware_stem_spec(stem: Seq<char>) -> Option<(Seq<char>, Seq<char>, int, int)> {
    match first_match(stem, ("_firmware_v_")@) {
        Some(q) => {
            let prefix = stem.subrange(0, q);
            let ver = stem.subrange(q + ("_firmware_v_")@.len() as int, stem.len() as int);
            match last_match(prefix, seq!['_']) {
                Some(u) => {
                    let board = prefix.subrange(0, u);
                    let proto = prefix.subrange(u + 1, prefix.len() as int);
                    let c1 = scan_to(ver, '_', 0);
                    if c1 < ver.len() && scan_to(ver, '_', c1 + 1) == ver.len() {
                        let maj_s = ver.subrange(0, c1);
                        let min_s = ver.subrange(c1 + 1, ver.len() as int);
                        if is_u32_numeral(maj_s) && is_u32_numeral(min_s) {
                            Some(
                                (
                                    board,
                                    proto,
                                    numeral_val(numeral_body(maj_s)),
                                    numeral_val(numeral_body(min_s)),
                                ),
                            )
                        } else {
                            None
                        }
                    } else {
                        None
                    }
                },
                None => None,
            }
        },
        None => None,
    }
}

/// Reads the board type, protocol and version numbers out of a firmware
/// file name, if it has the catalog shape.
pub fn parse_firmware_name(name: &str) -> (r: Option<(String, String, u32, u32)>)
    ensures
        match r {
            Some(t) => firmware_name_spec(name@) == Some(
                (t.0@, t.1@, t.2 as int, t.3 as int),
            ),
            None => firmware_name_spec(name@) is None,
        },
{
    proof {
        reveal_strlit(".");
        assert((".")@ =~= seq!['.']);
    }
    let p = match rfind_sub(name, ".") {
        Some(p) => {
            proof {
                lemma_last_match_at(name@, seq!['.'], p as int);
            }
            p
        },
        None => {
            proof {
                lemma_last_match_none(name@, seq!['.']);
            }
            return None;
        },
    };
    if p == 0 {
        return None;
    }
    let len = name.unicode_len();
    let ext = name.substring_char(p + 1, len);
    if !crate::strutil::str_eq_ignore_case(ext, "txt") {
        return None;
    }
    let stem = name.substring_char(0, p);
    proof {
        reveal_strlit("_firmware_v_");
    }
    let q = match find_sub(stem, "_firmware_v_") {
        Some(q) => {
            proof {
                lemma_first_match_at(stem@, ("_firmware_v_")@, q as int);
            }
            q
        },
        None => {
            proof {
                lemma_first_match_none(stem@, ("_firmware_v_")@);
            }
            return None;
        },
    };
    let slen = stem.unicode_len();
    let prefix = stem.substring_char(0, q);
    let ver = stem.substring_char(q + 12, slen);
    proof {
        reveal_strlit("_");
        assert(("_")@ =~= seq!['_']);
        assert(ver@ == stem@.subrange(q + ("_firmware_v_")@.len() as int, stem@.len() as int));
    }
    let u = match rfind_sub(prefix, "_") {
        Some(u) => {
            proof {
                lemma_last_match_at(prefix@, seq!['_'], u as int);
            }
            u
        },
        None => {
            proof {
                lemma_last_match_none(prefix@, seq!['_']);
            }
            return None;
        },
    };
    let plen = prefix.unicode_len();
    let board = prefix.substring_char(0, u).to_owned();
    let proto = prefix.substring_char(u + 1, plen).to_owned();
    let vlen = ver.unicode_len();
    let mut c1: usize = 0;
    while c1 < vlen && ver.get_char(c1) != '_'
        invariant
            vlen == ver@.len(),
            c1 <= vlen,
            scan_to(ver@, '_', 0) == scan_to(ver@, '_', c1 as int),
        decreases vlen - c1,
    {
        c1 += 1;
    }
    assert(scan_to(ver@, '_', 0) == c1);
    if c1 == vlen {
        return None;
    }
    let mut c2: usize = c1 + 1;
    while c2 < vlen && ver.get_char(c2) != '_'
        invariant
            vlen == ver@.len(),
            c1 < c2 <= vlen,
            scan_to(ver@, '_', c1 + 1) == scan_to(ver@, '_', c2 as int),
        decreases vlen - c2,
    {
        c2 += 1;
    }
    assert(scan_to(ver@, '_', c1 + 1) == c2);
    if c2 != vlen {
        return None;
    }
    let maj_s = ver.substring_char(0, c1);
    let min_s = ver.substring_char(c1 + 1, c2);
    let maj = match parse_u32(maj_s) {
        Some(m) => m,
        None => {
            return None;
        },
    };
    let min = match parse_u32(min_s) {
        Some(m) => m,
        None => {
            return None;
        },
    };
    Some((board, proto, maj, min))
}


/// One version available for a catalog key, with the file it resolves to.
pub struct CatalogEntry {
    pub version: String,
    pub path: String,
}

/// All versions available for one `"{BoardType}_{Protocol}"` key.
pub struct CatalogGroup {
    pub key: String,
    pub entries: Vec<CatalogEntry>,
}

/// The firmware catalog: for each board-type/protocol key, the canonical
/// versions on disk and their file paths.
pub struct Catalog {
    pub groups: Vec<CatalogGroup>,
}

/// Map from canonical version text to file path held by a run of entries.
pub open spec fn entries_model(es: Seq<CatalogEntry>) -> Map<Seq<char>, Seq<char>>
    decreases es.len(),
{
    if es.len() == 0 {
        Map::empty()
    } else {
        entries_model(es.drop_last()).insert(es.last().version@, es.last().path@)
    }
}

/// Map from catalog key to its version map held by a run of groups.
pub open spec fn groups_model(gs: Seq<CatalogGroup>) -> Map<Seq<char>, Map<Seq<char>, Seq<char>>>
    decreases gs.len(),
{
    if gs.len() == 0 {
        Map::empty()
    } else {
        groups_model(gs.drop_last()).insert(
            gs.last().key@,
            entries_model(gs.last().entries@),
        )
    }
}

/// No two entries name the same version.
pub open spec fn entries_wf(es: Seq<CatalogEntry>) -> bool {
    forall|i: int, j: int| 0 <= i < j < es.len() ==> es[i].version@ != es[j].version@
}

/// No two groups share a key, and every group is itself well formed.
pub open spec fn groups_wf(gs: Seq<CatalogGroup>) -> bool {
    &&& forall|i: int, j: int| 0 <= i < j < gs.len() ==> gs[i].key@ != gs[j].key@
    &&& forall|i: int| 0 <= i < gs.len() ==> entries_wf(gs[i].entries@)
}

/// The catalog a list of firmware files denotes: files whose names lack the
/// catalog shape are skipped, and for a `(key, version)` seen twice the
/// first file wins.
pub open spec fn catalog_model(files: Seq<(Seq<char>, Seq<char>)>) -> Map<
    Seq<char>,
    Map<Seq<char>, Seq<char>>,
>
    decreases files.len(),
{
    if files.len() == 0 {
        Map::empty()
    } else {
        let m = catalog_model(files.drop_last());
        let f = files.last();
        match firmware_name_spec(f.0) {
            Some(t) => {
                let key = t.0 + seq!['_'] + t.1;
                let ver = canon_version(t.2, t.3);
                let inner = if m.contains_key(key) {
                    m[key]
                } else {
                    Map::empty()
                };
                if inner.contains_key(ver) {
                    m
                } else {
                    m.insert(key, inner.insert(ver, f.1))
                }
            },
            None => m,
        }
    }
}

impl Catalog {
    /// The catalog's logical content.
    pub open spec fn model(&self) -> Map<Seq<char>, Map<Seq<char>, Seq<char>>> {
        groups_model(self.groups@)
    }

    /// Structural validity: keys unique, versions unique per key.
    pub open spec fn wf(&self) -> bool {
        groups_wf(self.groups@)
    }
}

/// A group with a key no later group repeats supplies that key's model.
proof fn lemma_groups_model_index(gs: Seq<CatalogGroup>, j: int)
    requires
        0 <= j < gs.len(),
        forall|l: int| j < l < gs.len() ==> gs[l].key@ != gs[j].key@,
    ensures
        groups_model(gs).contains_key(gs[j].key@),
        groups_model(gs)[gs[j].key@] == entries_model(gs[j].entries@),
    decreases gs.len(),
{
    if j < gs.len() - 1 {
        assert(forall|l: int| j < l < gs.drop_last().len() ==> gs.drop_last()[l].key@ != gs.drop_last()[j].key@);
        lemma_groups_model_index(gs.drop_last(), j);
    }
}

/// A key no group carries is absent from the model.
proof fn lemma_groups_model_absent(gs: Seq<CatalogGroup>, k: Seq<char>)
    requires
        forall|l: int| 0 <= l < gs.len() ==> gs[l].key@ != k,
    ensures
        !groups_model(gs).contains_key(k),
    decreases gs.len(),
{
    if gs.len() > 0 {
        lemma_groups_model_absent(gs.drop_last(), k);
    }
}

/// An entry whose version no later entry repeats supplies that version's
/// path.
proof fn lemma_entries_model_index(es: Seq<CatalogEntry>, j: int)
    requires
        0 <= j < es.len(),
        forall|l: int| j < l < es.len() ==> es[l].version@ != es[j].version@,
    ensures
        entries_model(es).contains_key(es[j].version@),
        entries_model(es)[es[j].version@] == es[j].path@,
    decreases es.len(),
{
    if j < es.len() - 1 {
        assert(forall|l: int| j < l < es.drop_last().len() ==> es.drop_last()[l].version@ != es.drop_last()[j].version@);
        lemma_entries_model_index(es.drop_last(), j);
    }
}

/// A version no entry carries is absent from the model.
proof fn lemma_entries_model_absent(es: Seq<CatalogEntry>, v: Seq<char>)
    requires
        forall|l: int| 0 <= l < es.len() ==> es[l].version@ != v,
    ensures
        !entries_model(es).contains_key(v),
    decreases es.len(),
{
    if es.len() > 0 {
        lemma_entries_model_absent(es.drop_last(), v);
    }
}

/// Replacing the one group that carries a key rewrites exactly that key's
/// model.
proof fn lemma_groups_model_update(gs: Seq<CatalogGroup>, j: int, g2: CatalogGroup)
    requires
        0 <= j < gs.len(),
        g2.key@ == gs[j].key@,
        forall|l: int| 0 <= l < gs.len() && l != j ==> gs[l].key@ != gs[j].key@,
    ensures
        groups_model(gs.update(j, g2)) == groups_model(gs).insert(
            g2.key@,
            entries_model(g2.entries@),
        ),
    decreases gs.len(),
{
    let gs2 = gs.update(j, g2);
    if j == gs.len() - 1 {
        assert(gs2.drop_last() =~= gs.drop_last());
        assert(gs2.last() == g2);
        assert(groups_model(gs).insert(g2.key@, entries_model(g2.entries@)) =~= groups_model(
            gs.drop_last(),
        ).insert(g2.key@, entries_model(g2.entries@)));
    } else {
        assert(gs2.drop_last() =~= gs.drop_last().update(j, g2));
        assert(gs2.last() == gs.last());
        lemma_groups_model_update(gs.drop_last(), j, g2);
        let base = groups_model(gs.drop_last());
        let klast = gs.last().key@;
        let vlast = entries_model(gs.last().entries@);
        assert(klast != g2.key@);
        assert(base.insert(g2.key@, entries_model(g2.entries@)).insert(klast, vlast)
            =~= base.insert(klast, vlast).insert(g2.key@, entries_model(g2.entries@)));
    }
}

/// Builds the catalog from the firmware files found on disk. The result is a
/// function of the file list alone, so two scans that see the same files
/// build the same catalog.
pub fn build_catalog(files: &Vec<FirmwareFile>) -> (c: Catalog)
    ensures
        c.wf(),
        c.model() == catalog_model(files_views(files@)),
{
    let ghost fv = files_views(files@);
    let mut groups: Vec<CatalogGroup> = Vec::new();
    let mut i: usize = 0;
    while i < files.len()
        invariant
            fv == files_views(files@),
            fv.len() == files@.len(),
            i <= files@.len(),
            groups_wf(groups@),
            groups_model(groups@) == catalog_model(fv.subrange(0, i as int)),
        decreases files@.len() - i,
    {
        proof {
            assert(fv.subrange(0, i + 1).drop_last() =~= fv.subrange(0, i as int));
            assert(fv.subrange(0, i + 1).last() == fv[i as int]);
            assert(fv[i as int] == (files@[i as int].name@, files@[i as int].path@));
        }
        if let Some((board, proto, maj, min)) = parse_firmware_name(files[i].name.as_str()) {
            let mut key = board;
            key.append("_");
            key.append(proto.as_str());
            proof {
                reveal_strlit("_");
                assert(("_")@ =~= seq!['_']);
            }
            let ver = canon_string(maj, min);
            let path = files[i].path.clone();
            let ghost keyv = key@;
            let ghost verv = ver@;
            let ghost pathv = path@;
            let ghost m0 = groups_model(groups@);
            let n = groups.len();
            let mut j: usize = 0;
            let mut found: bool = false;
            while j < n && !found
                invariant
                    n == groups@.len(),
                    j <= n,
                    keyv == key@,
                    found ==> j < n && groups@[j as int].key@ == keyv,
                    !found ==> forall|l: int| 0 <= l < j ==> groups@[l].key@ != keyv,
                decreases n - j + (if found {
                    0int
                } else {
                    1int
                }),
            {
                if str_eq(groups[j].key.as_str(), key.as_str()) {
                    found = true;
                } else {
                    j += 1;
                }
            }
            let ghost gs_before = groups@;
            if found {
                proof {
                    assert(forall|l: int|
                        j < l < gs_before.len() ==> gs_before[l].key@ != gs_before[j as int].key@);
                    lemma_groups_model_index(gs_before, j as int);
                }
                let ghost inner0 = entries_model(gs_before[j as int].entries@);
                let m = groups[j].entries.len();
                let mut t: usize = 0;
                let mut seen: bool = false;
                while t < m && !seen
                    invariant
                        0 <= j < groups@.len(),
                        m == groups@[j as int].entries@.len(),
                        t <= m,
                        verv == ver@,
                        seen ==> t < m && groups@[j as int].entries@[t as int].version@ == verv,
                        !seen ==> forall|l: int|
                            0 <= l < t ==> groups@[j as int].entries@[l].version@ != verv,
                    decreases m - t + (if seen {
                        0int
                    } else {
                        1int
                    }),
                {
                    if str_eq(groups[j].entries[t].version.as_str(), ver.as_str()) {
                        seen = true;
                    } else {
                        t += 1;
                    }
                }
                if seen {
                    proof {
                        assert(forall|l: int|
                            t < l < gs_before[j as int].entries@.len()
                                ==> gs_before[j as int].entries@[l].version@
                                != gs_before[j as int].entries@[t as int].version@);
                        lemma_entries_model_index(gs_before[j as int].entries@, t as int);
                        assert(inner0.contains_key(verv));
                    }
                } else {
                    proof {
                        lemma_entries_model_absent(gs_before[j as int].entries@, verv);
                    }
                    let mut g = groups.remove(j);
                    g.entries.push(CatalogEntry { version: ver, path });
                    let ghost g2 = g;
                    groups.insert(j, g);
                    proof {
                        assert(groups@ =~= gs_before.update(j as int, g2));
                        assert(g2.key@ == keyv);
                        assert(g2.entries@.drop_last() =~= gs_before[j as int].entries@);
                        assert(g2.entries@.last().version@ == verv);
                        assert(g2.entries@.last().path@ == pathv);
                        assert(forall|l: int|
                            0 <= l < gs_before.len() && l != j
                                ==> gs_before[l].key@ != gs_before[j as int].key@);
                        lemma_groups_model_update(gs_before, j as int, g2);
                        assert(entries_model(g2.entries@) == inner0.insert(verv, pathv));
                        assert(groups_model(groups@) == m0.insert(keyv, inner0.insert(verv, pathv)));
                        assert(groups_wf(groups@)) by {
                            assert(forall|l: int|
                                0 <= l < groups@.len() && l != j ==> groups@[l] == gs_before[l]);
                            assert(entries_wf(g2.entries@)) by {
                                assert(forall|l: int|
                                    0 <= l < gs_before[j as int].entries@.len()
                                        ==> #[trigger] g2.entries@[l]
                                        == gs_before[j as int].entries@[l]);
                            }
                        }
                    }
                }
            } else {
                proof {
                    lemma_groups_model_absent(gs_before, keyv);
                }
                let mut entries: Vec<CatalogEntry> = Vec::new();
                entries.push(CatalogEntry { version: ver, path });
                let g = CatalogGroup { key, entries };
                let ghost g2 = g;
                groups.push(g);
                proof {
                    assert(groups@.drop_last() =~= gs_before);
                    assert(groups@.last() == g2);
                    assert(g2.key@ == keyv);
                    assert(g2.entries@.len() == 1);
                    assert(g2.entries@.drop_last() =~= Seq::<CatalogEntry>::empty());
                    assert(entries_model(Seq::<CatalogEntry>::empty()) == Map::<
                        Seq<char>,
                        Seq<char>,
                    >::empty());
                    assert(g2.entries@.last().version@ == verv);
                    assert(g2.entries@.last().path@ == pathv);
                    assert(entries_model(g2.entries@) == Map::<Seq<char>, Seq<char>>::empty().insert(
                        verv,
                        pathv,
                    ));
                    assert(groups_model(groups@) == m0.insert(
                        keyv,
                        Map::<Seq<char>, Seq<char>>::empty().insert(verv, pathv),
                    ));
                    assert(groups_wf(groups@)) by {
                        assert(forall|l: int|
                            0 <= l < gs_before.len() ==> #[trigger] groups@[l] == gs_before[l]);
                        assert(entries_wf(g2.entries@));
                    }
                }
            }
        }
        i += 1;
    }
    proof {
        assert(fv.subrange(0, fv.len() as int) =~= fv);
    }
    Catalog { groups }
}


/// Some element of `v` reads as `x`.
pub open spec fn seq_has(v: Seq<String>, x: Seq<char>) -> bool {
    exists|l: int| 0 <= l < v.len() && v[l]@ == x
}

/// `v` lists the versions of `inner` exactly once each, sorted as text.
pub open spec fn versions_list_ok(inner: Map<Seq<char>, Seq<char>>, v: Seq<String>) -> bool {
    &&& forall|x: Seq<char>| seq_has(v, x) == inner.contains_key(x)
    &&& forall|a: int, b: int| 0 <= a < b < v.len() ==> v[a]@ != v[b]@
    &&& forall|a: int| 0 <= a < v.len() - 1 ==> !lex_lt(v[a + 1]@, (#[trigger] v[a])@)
}

/// Some entry among the first `t` carries version `x`.
pub open spec fn entry_has_upto(es: Seq<CatalogEntry>, t: int, x: Seq<char>) -> bool {
    exists|l: int| 0 <= l < t && es[l].version@ == x
}

/// The versions an entry run models are exactly the versions its entries
/// carry.
proof fn lemma_entries_model_dom(es: Seq<CatalogEntry>)
    ensures
        forall|x: Seq<char>|
            entries_model(es).contains_key(x) == entry_has_upto(es, es.len() as int, x),
    decreases es.len(),
{
    if es.len() > 0 {
        lemma_entries_model_dom(es.drop_last());
        assert forall|x: Seq<char>|
            entries_model(es).contains_key(x) == entry_has_upto(es, es.len() as int, x) by {
            let d = es.drop_last();
            if entries_model(es).contains_key(x) {
                if x != es.last().version@ {
                    assert(entries_model(d).contains_key(x));
                    assert(entry_has_upto(d, d.len() as int, x));
                    let l = choose|l: int| 0 <= l < d.len() && d[l].version@ == x;
                    assert(d[l] == es[l]);
                    assert(es[l].version@ == x);
                } else {
                    assert(es[es.len() - 1].version@ == x);
                }
            }
            if entry_has_upto(es, es.len() as int, x) {
                let l = choose|l: int| 0 <= l < es.len() && es[l].version@ == x;
                if l < es.len() - 1 {
                    assert(d[l] == es[l]);
                    assert(d[l].version@ == x);
                    assert(entry_has_upto(d, d.len() as int, x));
                }
            }
        }
    }
}

/// Inserting one string extends a list's contents by exactly that string.
proof fn lemma_insert_has(v: Seq<String>, pos: int, s: String)
    requires
        0 <= pos <= v.len(),
    ensures
        forall|x: Seq<char>| seq_has(v.insert(pos, s), x) == (seq_has(v, x) || s@ == x),
{
    let w = v.insert(pos, s);
    assert forall|x: Seq<char>| seq_has(w, x) == (seq_has(v, x) || s@ == x) by {
        if seq_has(w, x) {
            let l = choose|l: int| 0 <= l < w.len() && w[l]@ == x;
            if l < pos {
                assert(v[l]@ == x);
            } else if l > pos {
                assert(v[l - 1]@ == x);
            }
        }
        if seq_has(v, x) {
            let l = choose|l: int| 0 <= l < v.len() && v[l]@ == x;
            if l < pos {
                assert(w[l]@ == x);
            } else {
                assert(w[l + 1]@ == x);
            }
        }
        if s@ == x {
            assert(w[pos]@ == x);
        }
    }
}

impl Catalog {
    /// File path the catalog holds for the given key and canonical version.
    pub fn lookup_path(&self, key: &str, version: &str) -> (r: Option<String>)
        requires
            self.wf(),
        ensures
            match r {
                Some(p) => self.model().contains_key(key@) && self.model()[key@].contains_key(
                    version@,
                ) && p@ == self.model()[key@][version@],
                None => !self.model().contains_key(key@) || !self.model()[key@].contains_key(
                    version@,
                ),
            },
    {
        let n = self.groups.len();
        let mut j: usize = 0;
        while j < n
            invariant
                self.wf(),
                n == self.groups@.len(),
                j <= n,
                forall|l: int| 0 <= l < j ==> self.groups@[l].key@ != key@,
            decreases n - j,
        {
            if str_eq(self.groups[j].key.as_str(), key) {
                proof {
                    assert(forall|l: int|
                        j < l < self.groups@.len()
                            ==> self.groups@[l].key@ != self.groups@[j as int].key@);
                    lemma_groups_model_index(self.groups@, j as int);
                }
                let es = &self.groups[j].entries;
                let m = es.len();
                let mut t: usize = 0;
                while t < m
                    invariant
                        self.wf(),
                        0 <= j < self.groups@.len(),
                        es@ == self.groups@[j as int].entries@,
                        self.model().contains_key(key@),
                        self.model()[key@] == entries_model(es@),
                        m == es@.len(),
                        t <= m,
                        forall|l: int| 0 <= l < t ==> es@[l].version@ != version@,
                    decreases m - t,
                {
                    if str_eq(es[t].version.as_str(), version) {
                        proof {
                            assert(entries_wf(es@));
                            assert(forall|l: int|
                                t < l < es@.len() ==> es@[l].version@ != es@[t as int].version@);
                            lemma_entries_model_index(es@, t as int);
                        }
                        return Some(es[t].path.clone());
                    }
                    t += 1;
                }
                proof {
                    lemma_entries_model_absent(es@, version@);
                }
                return None;
            }
            j += 1;
        }
        proof {
            lemma_groups_model_absent(self.groups@, key@);
        }
        None
    }

    /// The canonical versions the catalog holds for a key, sorted as text,
    /// each exactly once; or nothing when the key is absent.
    pub fn available_versions(&self, key: &str) -> (r: Option<Vec<String>>)
        requires
            self.wf(),
        ensures
            match r {
                Some(v) => self.model().contains_key(key@) && versions_list_ok(
                    self.model()[key@],
                    v@,
                ),
                None => !self.model().contains_key(key@),
            },
    {
        let n = self.groups.len();
        let mut j: usize = 0;
        while j < n
            invariant
                self.wf(),
                n == self.groups@.len(),
                j <= n,
                forall|l: int| 0 <= l < j ==> self.groups@[l].key@ != key@,
            decreases n - j,
        {
            if str_eq(self.groups[j].key.as_str(), key) {
                proof {
                    assert(forall|l: int|
                        j < l < self.groups@.len()
                            ==> self.groups@[l].key@ != self.groups@[j as int].key@);
                    lemma_groups_model_index(self.groups@, j as int);
                    lemma_entries_model_dom(self.groups@[j as int].entries@);
                }
                let es = &self.groups[j].entries;
                let m = es.len();
                let mut out: Vec<String> = Vec::new();
                let mut t: usize = 0;
                while t < m
                    invariant
                        0 <= j < self.groups@.len(),
                        self.wf(),
                        es@ == self.groups@[j as int].entries@,
                        self.model().contains_key(key@),
                        self.model()[key@] == entries_model(es@),
                        forall|x: Seq<char>|
                            entries_model(es@).contains_key(x) == entry_has_upto(
                                es@,
                                es@.len() as int,
                                x,
                            ),
                        m == es@.len(),
                        t <= m,
                        forall|x: Seq<char>| seq_has(out@, x) == entry_has_upto(es@, t as int, x),
                        forall|a: int, b: int| 0 <= a < b < out@.len() ==> out@[a]@ != out@[b]@,
                        forall|a: int| 0 <= a < out@.len() - 1 ==> !lex_lt(out@[a + 1]@, (#[trigger] out@[a])@),
                    decreases m - t,
                {
                    let s = es[t].version.clone();
                    let olen = out.len();
                    let mut pos: usize = 0;
                    while pos < olen && lex_less(out[pos].as_str(), s.as_str())
                        invariant
                            olen == out@.len(),
                            pos <= olen,
                            s@ == es@[t as int].version@,
                            forall|l: int| 0 <= l < pos ==> lex_lt(out@[l]@, s@),
                        decreases olen - pos,
                    {
                        pos += 1;
                    }
                    proof {
                        assert(entries_wf(es@));
                        assert(!seq_has(out@, s@)) by {
                            if seq_has(out@, s@) {
                                assert(entry_has_upto(es@, t as int, s@));
                                let l = choose|l: int| 0 <= l < t && es@[l].version@ == s@;
                            }
                        }
                        lemma_insert_has(out@, pos as int, s);
                        assert forall|l: int| 0 <= l < pos implies !lex_lt(s@, out@[l]@) by {
                            crate::version::lemma_lex_asym(out@[l]@, s@);
                        }
                        assert forall|x: Seq<char>|
                            (entry_has_upto(es@, t as int, x) || es@[t as int].version@ == x)
                                == entry_has_upto(es@, t + 1, x) by {
                            if entry_has_upto(es@, t + 1, x) {
                                let l = choose|l: int| 0 <= l < t + 1 && es@[l].version@ == x;
                                if l < t {
                                    assert(entry_has_upto(es@, t as int, x));
                                }
                            }
                            if entry_has_upto(es@, t as int, x) {
                                let l = choose|l: int| 0 <= l < t && es@[l].version@ == x;
                                assert(0 <= l < t + 1 && es@[l].version@ == x);
                            }
                        }
                    }
                    let ghost out0 = out@;
                    out.insert(pos, s);
                    proof {
                        assert(forall|l: int| 0 <= l < pos ==> out@[l] == out0[l]);
                        assert(out@[pos as int] == s);
                        assert(forall|l: int| pos < l < out@.len() ==> out@[l] == out0[l - 1]);
                        assert forall|x: Seq<char>|
                            seq_has(out@, x) == entry_has_upto(es@, t + 1, x) by {
                            assert(out@ == out0.insert(pos as int, s));
                            assert(seq_has(out@, x) == (seq_has(out0, x) || s@ == x));
                            assert(seq_has(out0, x) == entry_has_upto(es@, t as int, x));
                            assert((entry_has_upto(es@, t as int, x) || es@[t as int].version@
                                == x) == entry_has_upto(es@, t + 1, x));
                        }
                        assert forall|a: int|
                            0 <= a < out@.len() - 1 implies !lex_lt(
                            out@[a + 1]@,
                            (#[trigger] out@[a])@,
                        ) by {
                            if a + 1 < pos {
                                assert(out@[a] == out0[a]);
                                assert(out@[a + 1] == out0[a + 1]);
                                assert(!lex_lt(out0[a + 1]@, (out0[a])@));
                            } else if a + 1 == pos {
                                assert(out@[a] == out0[a]);
                                assert(!lex_lt(s@, out0[a]@));
                            } else if a == pos {
                                assert(out@[a + 1] == out0[a]);
                                assert(!lex_lt(out0[pos as int]@, s@));
                            } else {
                                assert(out@[a] == out0[a - 1]);
                                assert(out@[a + 1] == out0[a]);
                                assert(!lex_lt(out0[a]@, (out0[a - 1])@));
                            }
                        }
                    }
                    t += 1;
                }
                return Some(out);
            }
            j += 1;
        }
        proof {
            lemma_groups_model_absent(self.groups@, key@);
        }
        None
    }
}

} // verus!
