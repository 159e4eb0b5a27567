//! The discovery layer's pure logic: where the Steam directory lies under
//! a home directory, which library roots a parsed library-index tree
//! names, which library holds a given app id, and the projection of a
//! parsed manifest tree into an application record. The file reading
//! around these calls is the caller's business.

use vstd::prelude::*;
use vstd::string::StrSliceExecFns;
use vstd::string::StringExecFns;

use crate::text::spec_parse_u64;
use crate::text::u64_dec;
use crate::value::spec_as_int;
use crate::value::spec_entries;
use crate::value::spec_index;
use crate::value::Value;
use crate::value::Vdf;

verus! {

/// One installed application's metadata, projected from its manifest.
#[derive(Debug)]
pub struct App {
    pub app_id: u64,
    pub name: String,
    pub size_on_disk: u64,
    pub path: String,
}

/// The model of a record: id, name, size, install path.
pub open spec fn app_model(a: App) -> (u64, Seq<char>, u64, Seq<char>) {
    (a.app_id, a.name@, a.size_on_disk, a.path@)
}

/// The model of a sequence of records.
pub open spec fn apps_view(s: Seq<App>) -> Seq<(u64, Seq<char>, u64, Seq<char>)> {
    Seq::new(s.len(), |i: int| app_model(s[i]))
}

/// The model of a sequence of strings.
pub open spec fn strs_view(s: Seq<String>) -> Seq<Seq<char>> {
    Seq::new(s.len(), |i: int| s[i]@)
}

/// The model of a sequence of values.
pub open spec fn values_view(s: Seq<Value>) -> Seq<Vdf> {
    Seq::new(s.len(), |i: int| s[i]@)
}

/// The Steam directory under a home directory.
pub fn steam_dir(home: &str) -> (r: String)
    ensures
        r@ == home@ + "/.steam/steam"@,
{
    let mut p = home.to_owned();
    p.append("/.steam/steam");
    p
}

/// The Steam directory under a home directory on macOS.
pub fn steam_dir_macos(home: &str) -> (r: String)
    ensures
        r@ == home@ + "/Library/Application Support/Steam"@,
{
    let mut p = home.to_owned();
    p.append("/Library/Application Support/Steam");
    p
}

/// Two's-complement reinterpretation of a signed value, as `as u64` does.
pub open spec fn wrap_u64(x: i64) -> u64 {
    if x >= 0 {
        x as u64
    } else {
        (x + 0x1_0000_0000_0000_0000) as u64
    }
}

fn to_u64(x: i64) -> (r: u64)
    ensures
        r == wrap_u64(x),
{
    if x >= 0 {
        x as u64
    } else {
        ((x as i128) + 0x1_0000_0000_0000_0000i128) as u64
    }
}

/// What one library-index entry contributes to the list of library
/// roots: its `path` field with `/steamapps` appended, nothing when the
/// field is absent or not a string.
pub open spec fn lib_path_unit(e: (Seq<char>, Vdf)) -> Seq<Seq<char>> {
    match spec_index(e.1, "path"@) {
        Vdf::Text(p) => seq![p + "/steamapps"@],
        _ => Seq::empty(),
    }
}

/// The library roots named by the `libraryfolders` entries, in order.
pub open spec fn spec_lib_paths(es: Seq<(Seq<char>, Vdf)>) -> Seq<Seq<char>>
    decreases es.len(),
{
    if es.len() == 0 {
        Seq::empty()
    } else {
        lib_path_unit(es[0]) + spec_lib_paths(es.drop_first())
    }
}

proof fn lemma_lib_paths_push(es: Seq<(Seq<char>, Vdf)>, x: (Seq<char>, Vdf))
    ensures
        spec_lib_paths(es.push(x)) == spec_lib_paths(es) + lib_path_unit(x),
    decreases es.len(),
{
    if es.len() == 0 {
        assert(es.push(x).drop_first() =~= es);
        assert(spec_lib_paths(es.push(x)) =~= spec_lib_paths(es) + lib_path_unit(x));
    } else {
        assert(es.push(x).drop_first() =~= es.drop_first().push(x));
        lemma_lib_paths_push(es.drop_first(), x);
        assert(es.push(x)[0] == es[0]);
        assert(lib_path_unit(es[0]) + (spec_lib_paths(es.drop_first()) + lib_path_unit(x)) =~= (
        lib_path_unit(es[0]) + spec_lib_paths(es.drop_first())) + lib_path_unit(x));
    }
}

/// The library roots named by the parsed library-index tree: for each
/// child of `libraryfolders` that has a string `path` field, that path
/// with `/steamapps` appended, in iteration order.
pub fn library_paths(lib: &Value) -> (r: Vec<String>)
    ensures
        strs_view(r@) == spec_lib_paths(spec_entries(spec_index(lib@, "libraryfolders"@))),
{
    let ghost es = spec_entries(spec_index(lib@, "libraryfolders"@));
    let folders = lib.index("libraryfolders");
    let entries = folders.iter();
    let mut out: Vec<String> = Vec::new();
    let n = entries.len();
    let mut i: usize = 0;
    proof {
        assert(strs_view(out@) =~= spec_lib_paths(es.take(0)));
    }
    while i < n
        invariant
            i <= n,
            n == entries@.len(),
            n == es.len(),
            es == spec_entries(spec_index(lib@, "libraryfolders"@)),
            crate::value::ref_entries_view(entries@) == es,
            strs_view(out@) == spec_lib_paths(es.take(i as int)),
        decreases n - i,
    {
        let ghost old_out = out@;
        proof {
            assert(es[i as int] == crate::value::ref_entries_view(entries@)[i as int]);
            assert(es.take(i + 1) =~= es.take(i as int).push(es[i as int]));
            lemma_lib_paths_push(es.take(i as int), es[i as int]);
        }
        let m = entries[i].1;
        let p = m.index("path");
        match p.as_str() {
            Some(ps) => {
                let mut q = ps.to_owned();
                q.append("/steamapps");
                out.push(q);
                proof {
                    assert(strs_view(out@) =~= spec_lib_paths(es.take(i as int)) + lib_path_unit(
                        es[i as int],
                    ));
                }
            },
            None => {
                proof {
                    assert(strs_view(out@) =~= spec_lib_paths(es.take(i as int)) + lib_path_unit(
                        es[i as int],
                    ));
                }
            },
        }
        i = i + 1;
    }
    proof {
        assert(es.take(n as int) =~= es);
    }
    out
}

/// Whether some key of an `apps` map is the decimal form of `id`.
pub open spec fn has_app_key(es: Seq<(Seq<char>, Vdf)>, id: u64) -> bool {
    exists|j: int| 0 <= j < es.len() && spec_parse_u64(#[trigger] es[j].0) == Some(id)
}

/// Whether one `libraryfolders` entry locates `id`: its `apps` map has a
/// key with that numeric value and its `path` field is a string.
pub open spec fn lib_entry_matches(m: Vdf, id: u64) -> bool {
    has_app_key(spec_entries(spec_index(m, "apps"@)), id) && spec_index(m, "path"@) is Text
}

/// The `path` field of the first `libraryfolders` entry that locates
/// `id`, or `None` when none does.
pub open spec fn spec_find_lib(es: Seq<(Seq<char>, Vdf)>, id: u64) -> Option<Seq<char>>
    decreases es.len(),
{
    if es.len() == 0 {
        None
    } else if lib_entry_matches(es[0].1, id) {
        Some(spec_index(es[0].1, "path"@)->Text_0)
    } else {
        spec_find_lib(es.drop_first(), id)
    }
}

proof fn lemma_find_lib_found(es: Seq<(Seq<char>, Vdf)>, id: u64, i: int)
    requires
        0 <= i < es.len(),
        lib_entry_matches(es[i].1, id),
        forall|j: int| 0 <= j < i ==> !lib_entry_matches(#[trigger] es[j].1, id),
    ensures
        spec_find_lib(es, id) == Some(spec_index(es[i].1, "path"@)->Text_0),
    decreases i,
{
    if i > 0 {
        lemma_find_lib_found(es.drop_first(), id, i - 1);
    }
}

proof fn lemma_find_lib_miss(es: Seq<(Seq<char>, Vdf)>, id: u64)
    requires
        forall|j: int| 0 <= j < es.len() ==> !lib_entry_matches(#[trigger] es[j].1, id),
    ensures
        spec_find_lib(es, id) is None,
    decreases es.len(),
{
    if es.len() > 0 {
        lemma_find_lib_miss(es.drop_first(), id);
    }
}

/// Scans the `libraryfolders` entries for the first library whose `apps`
/// map lists `app_id` and that names its own path; returns that path.
/// `None` exactly when no library locates the id: a missing app is told
/// apart from a found one, never defaulted.
pub fn find_app_library(lib: &Value, app_id: u64) -> (r: Option<String>)
    ensures
        match r {
            Some(p) => spec_find_lib(
                spec_entries(spec_index(lib@, "libraryfolders"@)),
                app_id,
            ) == Some(p@),
            None => spec_find_lib(spec_entries(spec_index(lib@, "libraryfolders"@)), app_id)
                is None,
        },
{
    let ghost es = spec_entries(spec_index(lib@, "libraryfolders"@));
    let folders = lib.index("libraryfolders");
    let entries = folders.iter();
    let n = entries.len();
    let mut i: usize = 0;
    while i < n
        invariant
            i <= n,
            n == entries@.len(),
            n == es.len(),
            es == spec_entries(spec_index(lib@, "libraryfolders"@)),
            crate::value::ref_entries_view(entries@) == es,
            forall|j: int| 0 <= j < i ==> !lib_entry_matches(#[trigger] es[j].1, app_id),
        decreases n - i,
    {
        proof {
            assert(es[i as int] == crate::value::ref_entries_view(entries@)[i as int]);
        }
        let m = entries[i].1;
        let ghost akeys = spec_entries(spec_index(m@, "apps"@));
        let apps = m.index("apps");
        let akv = apps.iter();
        let an = akv.len();
        let mut j: usize = 0;
        let mut found: bool = false;
        while j < an && !found
            invariant
                j <= an,
                an == akv@.len(),
                an == akeys.len(),
                crate::value::ref_entries_view(akv@) == akeys,
                found ==> has_app_key(akeys, app_id),
                !found ==> forall|w: int|
                    0 <= w < j ==> spec_parse_u64(#[trigger] akeys[w].0) != Some(app_id),
            decreases an - j,
        {
            proof {
                assert(akeys[j as int] == crate::value::ref_entries_view(akv@)[j as int]);
            }
            match crate::text::parse_u64(akv[j].0.as_str()) {
                Some(v) => {
                    if v == app_id {
                        found = true;
                        proof {
                            assert(spec_parse_u64(akeys[j as int].0) == Some(app_id));
                        }
                    }
                },
                None => {},
            }
            j = j + 1;
        }
        if found {
            let p = m.index("path");
            match p.as_str() {
                Some(ps) => {
                    proof {
                        lemma_find_lib_found(es, app_id, i as int);
                    }
                    return Some(ps.to_owned());
                },
                None => {
                    proof {
                        assert(!(spec_index(es[i as int].1, "path"@) is Text));
                    }
                },
            }
        } else {
            proof {
                assert(!has_app_key(akeys, app_id));
            }
        }
        i = i + 1;
    }
    proof {
        lemma_find_lib_miss(es, app_id);
    }
    None
}

/// The manifest file of app `id` under library root `path`.
pub fn manifest_path(path: &str, id: u64) -> (r: String)
    ensures
        r@ == path@ + "/steamapps/appmanifest_"@ + u64_dec(id as int) + ".acf"@,
{
    let digits = crate::text::u64_chars(id);
    let ds = crate::text::chars_to_string(&digits);
    let mut p = path.to_owned();
    p.append("/steamapps/appmanifest_");
    p.append(ds.as_str());
    p.append(".acf");
    p
}

/// The `common` directory under library root `path`, where the apps of
/// that library are installed.
pub fn common_dir(path: &str) -> (r: String)
    ensures
        r@ == path@ + "/steamapps/common"@,
{
    let mut p = path.to_owned();
    p.append("/steamapps/common");
    p
}

/// What a manifest tree projects to: the `AppState` block's `appid` and
/// `SizeOnDisk` read as integers (reinterpreted as unsigned, as the
/// record holds them), its `name`, and its `installdir` joined under
/// `root`. `None` exactly when one of the four is absent or of the wrong
/// kind.
pub open spec fn spec_app(v: Vdf, root: Seq<char>) -> Option<(u64, Seq<char>, u64, Seq<char>)> {
    let st = spec_index(v, "AppState"@);
    match (
        spec_as_int(spec_index(st, "appid"@)),
        spec_as_int(spec_index(st, "SizeOnDisk"@)),
        spec_index(st, "installdir"@),
        spec_index(st, "name"@),
    ) {
        (Some(id), Some(sz), Vdf::Text(dir), Vdf::Text(nm)) => Some(
            (wrap_u64(id), nm, wrap_u64(sz), root + "/"@ + dir),
        ),
        _ => None,
    }
}

/// Projects a parsed manifest tree into a record, the install path
/// joined under `root`. `None` exactly when a required field is absent
/// or of the wrong kind; such a manifest is the caller's to skip.
pub fn app_from_state(ast: &Value, root: &str) -> (r: Option<App>)
    ensures
        match r {
            Some(app) => spec_app(ast@, root@) == Some(app_model(app)),
            None => spec_app(ast@, root@) is None,
        },
{
    let state = ast.index("AppState");
    let id = match state.index("appid").as_int() {
        Some(v) => v,
        None => {
            return None;
        },
    };
    let sz = match state.index("SizeOnDisk").as_int() {
        Some(v) => v,
        None => {
            return None;
        },
    };
    let dir = match state.index("installdir").as_str() {
        Some(v) => v,
        None => {
            return None;
        },
    };
    let nm = match state.index("name").as_str() {
        Some(v) => v,
        None => {
            return None;
        },
    };
    let mut path = root.to_owned();
    path.append("/");
    path.append(dir);
    Some(
        App {
            app_id: to_u64(id),
            name: nm.to_owned(),
            size_on_disk: to_u64(sz),
            path,
        },
    )
}

/// The records of a sequence of parsed manifests, in order, those with a
/// missing or mistyped field skipped.
pub open spec fn spec_apps(vs: Seq<Vdf>, root: Seq<char>) -> Seq<(u64, Seq<char>, u64, Seq<char>)>
    decreases vs.len(),
{
    if vs.len() == 0 {
        Seq::empty()
    } else {
        (match spec_app(vs[0], root) {
            Some(a) => seq![a],
            None => Seq::empty(),
        }) + spec_apps(vs.drop_first(), root)
    }
}

proof fn lemma_spec_apps_push(vs: Seq<Vdf>, x: Vdf, root: Seq<char>)
    ensures
        spec_apps(vs.push(x), root) == spec_apps(vs, root) + (match spec_app(x, root) {
            Some(a) => seq![a],
            None => Seq::empty(),
        }),
    decreases vs.len(),
{
    let unit = (match spec_app(x, root) {
        Some(a) => seq![a],
        None => Seq::<(u64, Seq<char>, u64, Seq<char>)>::empty(),
    });
    if vs.len() == 0 {
        assert(vs.push(x).drop_first() =~= vs);
        assert(spec_apps(vs.push(x), root) =~= spec_apps(vs, root) + unit);
    } else {
        assert(vs.push(x).drop_first() =~= vs.drop_first().push(x));
        lemma_spec_apps_push(vs.drop_first(), x, root);
        assert(vs.push(x)[0] == vs[0]);
        let head = (match spec_app(vs[0], root) {
            Some(a) => seq![a],
            None => Seq::<(u64, Seq<char>, u64, Seq<char>)>::empty(),
        });
        assert(head + (spec_apps(vs.drop_first(), root) + unit) =~= (head + spec_apps(
            vs.drop_first(),
            root,
        )) + unit);
    }
}

/// Projects each parsed manifest tree into a record, the install paths
/// joined under `root`; a manifest with a missing or mistyped field is
/// skipped and never aborts the rest.
pub fn apps_from_manifests(manifests: &Vec<Value>, root: &str) -> (r: Vec<App>)
    ensures
        apps_view(r@) == spec_apps(values_view(manifests@), root@),
{
    let ghost vs = values_view(manifests@);
    let mut out: Vec<App> = Vec::new();
    let n = manifests.len();
    let mut i: usize = 0;
    proof {
        assert(apps_view(out@) =~= spec_apps(vs.take(0), root@));
    }
    while i < n
        invariant
            i <= n,
            n == manifests@.len(),
            n == vs.len(),
            vs == values_view(manifests@),
            apps_view(out@) == spec_apps(vs.take(i as int), root@),
        decreases n - i,
    {
        proof {
            assert(vs.take(i + 1) =~= vs.take(i as int).push(vs[i as int]));
            assert(vs[i as int] == manifests@[i as int]@);
            lemma_spec_apps_push(vs.take(i as int), vs[i as int], root@);
        }
        match app_from_state(&manifests[i], root) {
            Some(app) => {
                out.push(app);
                proof {
                    assert(apps_view(out@) =~= spec_apps(vs.take(i as int), root@) + seq![
                        spec_app(vs[i as int], root@)->Some_0,
                    ]);
                }
            },
            None => {
                proof {
                    assert(apps_view(out@) =~= spec_apps(vs.take(i as int), root@)
                        + Seq::<(u64, Seq<char>, u64, Seq<char>)>::empty());
                }
            },
        }
        i = i + 1;
    }
    proof {
        assert(vs.take(n as int) =~= vs);
    }
    out
}

/// Ascending order by app id.
pub open spec fn apps_sorted(s: Seq<(u64, Seq<char>, u64, Seq<char>)>) -> bool {
    forall|i: int, j: int| 0 <= i < j < s.len() ==> (#[trigger] s[i]).0 <= (#[trigger] s[j]).0
}

/// Places a record after every record whose id is at most its own:
/// stable insertion by id.
pub open spec fn sorted_insert_app(
    t: Seq<(u64, Seq<char>, u64, Seq<char>)>,
    e: (u64, Seq<char>, u64, Seq<char>),
) -> Seq<(u64, Seq<char>, u64, Seq<char>)>
    decreases t.len(),
{
    if t.len() == 0 {
        seq![e]
    } else if t.last().0 <= e.0 {
        t.push(e)
    } else {
        sorted_insert_app(t.drop_last(), e).push(t.last())
    }
}

/// Stable insertion sort of records by app id.
pub open spec fn spec_sort_apps(s: Seq<(u64, Seq<char>, u64, Seq<char>)>) -> Seq<
    (u64, Seq<char>, u64, Seq<char>),
>
    decreases s.len(),
{
    if s.len() == 0 {
        Seq::empty()
    } else {
        sorted_insert_app(spec_sort_apps(s.drop_last()), s.last())
    }
}

proof fn lemma_sorted_insert_app_at(
    t: Seq<(u64, Seq<char>, u64, Seq<char>)>,
    e: (u64, Seq<char>, u64, Seq<char>),
    p: int,
)
    requires
        apps_sorted(t),
        0 <= p <= t.len(),
        forall|j: int| 0 <= j < p ==> (#[trigger] t[j]).0 <= e.0,
        p < t.len() ==> t[p].0 > e.0,
    ensures
        sorted_insert_app(t, e) == t.subrange(0, p) + seq![e] + t.subrange(p, t.len() as int),
        apps_sorted(sorted_insert_app(t, e)),
        sorted_insert_app(t, e).len() == t.len() + 1,
    decreases t.len(),
{
    if t.len() == 0 {
        assert(sorted_insert_app(t, e) =~= t.subrange(0, p) + seq![e] + t.subrange(
            p,
            t.len() as int,
        ));
    } else if t.last().0 <= e.0 {
        assert(p == t.len());
        assert(t.push(e) =~= t.subrange(0, p) + seq![e] + t.subrange(p, t.len() as int));
    } else {
        assert(p < t.len());
        let d = t.drop_last();
        assert(apps_sorted(d)) by {
            assert forall|i: int, j: int| 0 <= i < j < d.len() implies (#[trigger] d[i]).0 <= (
            #[trigger] d[j]).0 by {
                assert(t[i] == d[i] && t[j] == d[j]);
            }
        }
        assert(forall|j: int| 0 <= j < p ==> (#[trigger] d[j]).0 <= e.0) by {
            assert(forall|j: int| 0 <= j < p ==> d[j] == t[j]);
        }
        assert(p < d.len() ==> d[p].0 > e.0) by {
            if p < d.len() {
                assert(d[p] == t[p]);
            }
        }
        lemma_sorted_insert_app_at(d, e, p);
        let q = sorted_insert_app(d, e);
        assert(q.push(t.last()) =~= t.subrange(0, p) + seq![e] + t.subrange(p, t.len() as int));
        assert(apps_sorted(q.push(t.last()))) by {
            assert forall|i: int, j: int| 0 <= i < j < q.push(t.last()).len() implies (
            #[trigger] q.push(t.last())[i]).0 <= (#[trigger] q.push(t.last())[j]).0 by {
                if j < q.len() {
                    assert(q.push(t.last())[i] == q[i] && q.push(t.last())[j] == q[j]);
                } else {
                    assert(q.push(t.last())[j] == t.last());
                    let qi = q.push(t.last())[i];
                    if i < p {
                        assert(qi == t[i]);
                    } else if i == p {
                        assert(qi == e);
                    } else {
                        assert(qi == t[i - 1]);
                    }
                }
            }
        }
    }
}

/// Sorts records ascending by app id, stably.
pub fn sort_apps(v: Vec<App>) -> (r: Vec<App>)
    ensures
        apps_view(r@) == spec_sort_apps(apps_view(v@)),
        apps_sorted(apps_view(r@)),
{
    let ghost orig = apps_view(v@);
    let mut src = v;
    let mut out: Vec<App> = Vec::new();
    let ghost mut k: int = 0;
    proof {
        assert(apps_view(out@) =~= spec_sort_apps(orig.take(0)));
        assert(apps_view(src@) =~= orig);
    }
    while src.len() > 0
        invariant
            0 <= k <= orig.len(),
            src@.len() == orig.len() - k,
            apps_view(src@) =~= orig.skip(k),
            apps_view(out@) == spec_sort_apps(orig.take(k)),
            apps_sorted(apps_view(out@)),
            out@.len() == k,
        decreases src@.len(),
    {
        let ghost old_src = src@;
        let ghost old_out = apps_view(out@);
        let e = src.remove(0);
        proof {
            assert(app_model(e) == orig[k]) by {
                assert(apps_view(old_src)[0] == orig.skip(k)[0]);
            }
            assert(apps_view(src@) =~= orig.skip(k + 1)) by {
                assert forall|j: int| 0 <= j < src@.len() implies apps_view(src@)[j] == orig.skip(
                    k + 1,
                )[j] by {
                    assert(src@[j] == old_src[j + 1]);
                    assert(apps_view(old_src)[j + 1] == orig.skip(k)[j + 1]);
                }
            }
        }
        let mut p: usize = 0;
        while p < out.len() && out[p].app_id <= e.app_id
            invariant
                0 <= p <= out@.len(),
                old_out == apps_view(out@),
                forall|j: int| 0 <= j < p ==> (#[trigger] old_out[j]).0 <= app_model(e).0,
            decreases out@.len() - p,
        {
            proof {
                assert(old_out[p as int].0 == out@[p as int].app_id);
            }
            p = p + 1;
        }
        proof {
            assert(p < out@.len() ==> old_out[p as int].0 > app_model(e).0) by {
                if p < out@.len() {
                    assert(old_out[p as int].0 == out@[p as int].app_id);
                }
            }
            lemma_sorted_insert_app_at(old_out, app_model(e), p as int);
        }
        out.insert(p, e);
        proof {
            assert(apps_view(out@) =~= old_out.subrange(0, p as int) + seq![app_model(e)]
                + old_out.subrange(p as int, old_out.len() as int));
            assert(orig.take(k + 1).drop_last() =~= orig.take(k));
            assert(orig.take(k + 1).last() == orig[k]);
            assert(apps_view(out@) == sorted_insert_app(spec_sort_apps(orig.take(k)), orig[k]));
            k = k + 1;
        }
    }
    proof {
        assert(orig.take(k) =~= orig);
        assert(orig == apps_view(v@));
    }
    out
}

} // verus!
