use vstd::prelude::*;

use crate::text::concat2;
use crate::text::concat3;
use crate::text::contains_separator;
use crate::text::has_separator;
use crate::vdf::ents_view;
use crate::vdf::find_first_leaf;
use crate::vdf::find_first_node;
use crate::vdf::collect_leaves_keyed;
use crate::vdf::first_leaf;
use crate::vdf::first_node;
use crate::vdf::leaves_keyed;
use crate::vdf::lemma_node_view;
use crate::vdf::line_of;
use crate::vdf::parse;
use crate::vdf::spec_parse;
use crate::vdf::strs_view;
use crate::vdf::ErrKind;
use crate::vdf::ParseOut;
use crate::vdf::SyntaxError;
use crate::vdf::Tree;
use crate::vdf::Value;

verus! {

/// A file the engine may read: its path, text, and modification time.
pub struct FileEntry {
    pub path: String,
    pub content: String,
    pub mtime: u64,
}

/// The part of the on-disk state a run looks at, read up front so the
/// engine itself is a pure function of it.
pub struct Snapshot {
    pub dirs: Vec<String>,
    pub files: Vec<FileEntry>,
}

/// First file with the given path, in snapshot order.
pub open spec fn find_file(files: Seq<FileEntry>, p: Seq<char>) -> Option<FileEntry>
    decreases files.len(),
{
    if files.len() == 0 {
        None
    } else if files[0].path@ == p {
        Some(files[0])
    } else {
        find_file(files.drop_first(), p)
    }
}

impl Snapshot {
    pub open spec fn has_dir_spec(self, p: Seq<char>) -> bool {
        exists|i: int| 0 <= i < self.dirs@.len() && self.dirs@[i]@ == p
    }

    pub fn dir_exists(&self, p: &str) -> (r: bool)
        ensures
            r == self.has_dir_spec(p@),
    {
        let mut i: usize = 0;
        while i < self.dirs.len()
            invariant
                i <= self.dirs@.len(),
                forall|k: int| 0 <= k < i ==> self.dirs@[k]@ != p@,
            decreases self.dirs@.len() - i,
        {
            if crate::text::str_equal(self.dirs[i].as_str(), p) {
                proof {
                    assert(self.dirs@[i as int]@ == p@);
                }
                return true;
            }
            i += 1;
        }
        false
    }

    pub fn read_file(&self, p: &str) -> (r: Option<&FileEntry>)
        ensures
            match r {
                Some(f) => find_file(self.files@, p@) == Some(*f),
                None => find_file(self.files@, p@) is None,
            },
    {
        let mut i: usize = 0;
        proof {
            assert(self.files@.skip(0) =~= self.files@);
        }
        loop
            invariant
                i <= self.files@.len(),
                find_file(self.files@, p@) == find_file(self.files@.skip(i as int), p@),
            decreases self.files@.len() - i,
        {
            if i >= self.files.len() {
                return None;
            }
            proof {
                assert(self.files@.skip(i as int).drop_first() =~= self.files@.skip(i + 1 as int));
                assert(self.files@.skip(i as int)[0] == self.files@[i as int]);
            }
            if crate::text::str_equal(self.files[i].path.as_str(), p) {
                return Some(&self.files[i]);
            }
            i += 1;
        }
    }
}

/// The resolution errors of the engine.
#[derive(Debug)]
pub enum ResolveError {
    Syntax(SyntaxError),
    NotFound,
    Malformed,
    UnknownUser(String),
    CompatToolNotFound(String),
    NotAClientRoot,
}

// ---------------------------------------------------------------------------
// The paths the engine derives, at the model level and executably.
// ---------------------------------------------------------------------------

pub open spec fn steamapps_dir(root: Seq<char>) -> Seq<char> {
    root + "/steamapps"@
}

pub open spec fn listing_path(root: Seq<char>) -> Seq<char> {
    root + "/steamapps/libraryfolders.vdf"@
}

pub open spec fn manifest_path(root: Seq<char>, app: Seq<char>) -> Seq<char> {
    root + "/steamapps/appmanifest_"@ + app + ".acf"@
}

pub open spec fn common_dir(root: Seq<char>, d: Seq<char>) -> Seq<char> {
    root + "/steamapps/common/"@ + d
}

pub open spec fn compat_data_dir(root: Seq<char>, app: Seq<char>) -> Seq<char> {
    root + "/steamapps/compatdata/"@ + app
}

pub open spec fn tools_dir(root: Seq<char>, name: Seq<char>) -> Seq<char> {
    root + "/steamapps/compatibilitytools.d/"@ + name
}

pub open spec fn config_path(root: Seq<char>) -> Seq<char> {
    root + "/config/config.vdf"@
}

pub open spec fn user_dir(root: Seq<char>, uid: Seq<char>) -> Seq<char> {
    root + "/userdata/"@ + uid
}

pub open spec fn user_cfg_path(root: Seq<char>, uid: Seq<char>) -> Seq<char> {
    root + "/userdata/"@ + uid + "/config/localconfig.vdf"@
}

// ---------------------------------------------------------------------------
// LibraryIndex: the ordered installation roots a client knows about.
// ---------------------------------------------------------------------------

/// The "path" leaves of the library listing file, in file order;
/// empty if the file is absent or does not parse.
pub open spec fn listed_roots(fs: Snapshot, root: Seq<char>) -> Seq<Seq<char>> {
    match find_file(fs.files@, listing_path(root)) {
        None => Seq::empty(),
        Some(f) => match spec_parse(f.content@) {
            ParseOut::Parsed(es) => leaves_keyed(es, "path"@),
            ParseOut::Failed(_, _) => Seq::empty(),
        },
    }
}

/// The error of the listing file, if it is present and does not parse.
pub open spec fn listing_bad(fs: Snapshot, root: Seq<char>) -> Option<(ErrKind, int)> {
    match find_file(fs.files@, listing_path(root)) {
        None => None,
        Some(f) => match spec_parse(f.content@) {
            ParseOut::Parsed(_) => None,
            ParseOut::Failed(k, p) => Some((k, line_of(f.content@, p))),
        },
    }
}

/// Those of the listed paths that still exist on disk, in order;
/// stale entries are skipped.
pub open spec fn keep_existing(fs: Snapshot, ps: Seq<Seq<char>>) -> Seq<Seq<char>>
    decreases ps.len(),
{
    if ps.len() == 0 {
        Seq::empty()
    } else {
        (if fs.has_dir_spec(ps[0]) {
            seq![ps[0]]
        } else {
            Seq::empty()
        }) + keep_existing(fs, ps.drop_first())
    }
}

/// The ordered library roots: the client root itself first, then each
/// listed root that still exists, in file order.
pub open spec fn library_roots(fs: Snapshot, root: Seq<char>) -> Seq<Seq<char>> {
    seq![root] + keep_existing(fs, listed_roots(fs, root))
}

/// Discover the ordered library roots of a client root.
pub fn discover(fs: &Snapshot, client_root: &str) -> (r: Result<Vec<String>, ResolveError>)
    ensures
        match r {
            Ok(roots) => fs.has_dir_spec(steamapps_dir(client_root@)) && listing_bad(
                *fs,
                client_root@,
            ) is None && strs_view(roots@) == library_roots(*fs, client_root@),
            Err(e) => match e {
                ResolveError::NotAClientRoot => !fs.has_dir_spec(steamapps_dir(client_root@)),
                ResolveError::Syntax(se) => fs.has_dir_spec(steamapps_dir(client_root@))
                    && listing_bad(*fs, client_root@) == Some((se.kind, se.line as int)),
                _ => false,
            },
        },
{
    let sa = concat2(client_root, "/steamapps");
    if !fs.dir_exists(sa.as_str()) {
        return Err(ResolveError::NotAClientRoot);
    }
    let mut roots: Vec<String> = Vec::new();
    roots.push(client_root.to_owned());
    let lp = concat2(client_root, "/steamapps/libraryfolders.vdf");
    let listing = fs.read_file(lp.as_str());
    match listing {
        None => {
            proof {
                assert(strs_view(roots@) =~= library_roots(*fs, client_root@));
            }
            Ok(roots)
        },
        Some(f) => {
            match parse(f.content.as_str()) {
                Err(e) => Err(ResolveError::Syntax(e)),
                Ok(v) => {
                    let mut paths: Vec<String> = Vec::new();
                    match &v {
                        Value::Leaf(_) => {
                            // parse always yields the implicit root node
                            proof {
                                assert(false);
                            }
                        },
                        Value::Node(es) => {
                            proof {
                                lemma_node_view(*es);
                            }
                            collect_leaves_keyed(es, "path", &mut paths);
                            proof {
                                assert(Seq::<Seq<char>>::empty() + leaves_keyed(
                                    ents_view(es@),
                                    "path"@,
                                ) =~= leaves_keyed(ents_view(es@), "path"@));
                                assert(strs_view(Seq::<String>::empty()) =~= Seq::<
                                    Seq<char>,
                                >::empty());
                            }
                        },
                    }
                    let ghost lv = strs_view(paths@);
                    proof {
                        assert(lv == listed_roots(*fs, client_root@));
                        assert(lv.skip(0) =~= lv);
                        assert(strs_view(roots@) =~= seq![client_root@]);
                    }
                    let mut i: usize = 0;
                    while i < paths.len()
                        invariant
                            i <= paths@.len(),
                            lv == strs_view(paths@),
                            strs_view(roots@) + keep_existing(*fs, lv.skip(i as int)) == seq![
                                client_root@,
                            ] + keep_existing(*fs, lv),
                        decreases paths@.len() - i,
                    {
                        proof {
                            assert(lv.skip(i as int).drop_first() =~= lv.skip(i + 1 as int));
                            assert(lv.skip(i as int)[0] == paths@[i as int]@);
                        }
                        let ghost rv0 = strs_view(roots@);
                        if fs.dir_exists(paths[i].as_str()) {
                            let p = paths[i].clone();
                            roots.push(p);
                            proof {
                                assert(strs_view(roots@) =~= rv0 + seq![paths@[i as int]@]);
                            }
                        } else {
                            proof {
                                assert(rv0 + Seq::<Seq<char>>::empty() =~= rv0);
                            }
                        }
                        proof {
                            assert(strs_view(roots@) + keep_existing(*fs, lv.skip(i + 1 as int))
                                =~= rv0 + keep_existing(*fs, lv.skip(i as int)));
                        }
                        i += 1;
                    }
                    proof {
                        assert(keep_existing(*fs, lv.skip(paths@.len() as int)) =~= Seq::<
                            Seq<char>,
                        >::empty());
                        assert(strs_view(roots@) + Seq::<Seq<char>>::empty() =~= strs_view(
                            roots@,
                        ));
                        assert(strs_view(roots@) =~= library_roots(*fs, client_root@));
                    }
                    Ok(roots)
                },
            }
        },
    }
}

// ---------------------------------------------------------------------------
// ManifestReader: which root owns an application, and its install dir.
// ---------------------------------------------------------------------------

/// A root owns an application when the per-application manifest file
/// exists in its storage subdirectory; content is not consulted.
pub open spec fn owns(fs: Snapshot, root: Seq<char>, app: Seq<char>) -> bool {
    find_file(fs.files@, manifest_path(root, app)) is Some
}

/// The first root, in discovery order, whose manifest set has the
/// application; earlier roots always win.
pub fn find_owning_library(fs: &Snapshot, roots: &Vec<String>, app_id: &str) -> (r: Result<
    String,
    ResolveError,
>)
    ensures
        match r {
            Ok(root) => exists|i: int|
                0 <= i < roots@.len() && root@ == #[trigger] roots@[i]@ && owns(
                    *fs,
                    roots@[i]@,
                    app_id@,
                ) && (forall|j: int| 0 <= j < i ==> !owns(*fs, #[trigger] roots@[j]@, app_id@)),
            Err(e) => e is NotFound && forall|i: int|
                0 <= i < roots@.len() ==> !owns(*fs, #[trigger] roots@[i]@, app_id@),
        },
{
    let mut i: usize = 0;
    while i < roots.len()
        invariant
            i <= roots@.len(),
            forall|j: int| 0 <= j < i ==> !owns(*fs, #[trigger] roots@[j]@, app_id@),
        decreases roots@.len() - i,
    {
        let mp = concat3(roots[i].as_str(), "/steamapps/appmanifest_", app_id);
        let mp2 = concat2(mp.as_str(), ".acf");
        proof {
            assert(mp2@ == manifest_path(roots@[i as int]@, app_id@));
        }
        if fs.read_file(mp2.as_str()).is_some() {
            let out = roots[i].clone();
            proof {
                assert(out@ == roots@[i as int]@ && owns(*fs, roots@[i as int]@, app_id@));
            }
            return Ok(out);
        }
        i += 1;
    }
    Err(ResolveError::NotFound)
}

/// Extract the application's install-directory name from the owning
/// root's manifest: the first `installdir` leaf. A name holding a path
/// separator is `Malformed`, never silently joined.
pub fn read_install_dir(fs: &Snapshot, root: &str, app_id: &str) -> (r: Result<
    String,
    ResolveError,
>)
    ensures
        match r {
            Ok(d) => find_file(fs.files@, manifest_path(root@, app_id@)) matches Some(f)
                && spec_parse(f.content@) matches ParseOut::Parsed(es) && first_leaf(
                es,
                "installdir"@,
            ) == Some(d@) && !has_separator(d@),
            Err(e) => match e {
                ResolveError::NotFound => (find_file(fs.files@, manifest_path(root@, app_id@))
                    is None) || (find_file(fs.files@, manifest_path(root@, app_id@)) matches Some(
                    f,
                ) && spec_parse(f.content@) matches ParseOut::Parsed(es) && first_leaf(
                    es,
                    "installdir"@,
                ) is None),
                ResolveError::Syntax(se) => find_file(fs.files@, manifest_path(root@, app_id@))
                    matches Some(f) && spec_parse(f.content@) matches ParseOut::Failed(k, p)
                    && se.kind == k && se.line as int == line_of(f.content@, p),
                ResolveError::Malformed => find_file(fs.files@, manifest_path(root@, app_id@))
                    matches Some(f) && spec_parse(f.content@) matches ParseOut::Parsed(es)
                    && first_leaf(es, "installdir"@) matches Some(d) && has_separator(d),
                _ => false,
            },
        },
{
    let mp = concat3(root, "/steamapps/appmanifest_", app_id);
    let mp2 = concat2(mp.as_str(), ".acf");
    proof {
        assert(mp2@ == manifest_path(root@, app_id@));
    }
    match fs.read_file(mp2.as_str()) {
        None => Err(ResolveError::NotFound),
        Some(f) => match parse(f.content.as_str()) {
            Err(e) => Err(ResolveError::Syntax(e)),
            Ok(v) => match &v {
                Value::Leaf(_) => {
                    // parse always yields the implicit root node
                    proof {
                        assert(false);
                    }
                    Err(ResolveError::NotFound)
                },
                Value::Node(es) => {
                    proof {
                        lemma_node_view(*es);
                    }
                    match find_first_leaf(es, "installdir") {
                        None => Err(ResolveError::NotFound),
                        Some(d) => {
                            if contains_separator(d.as_str()) {
                                Err(ResolveError::Malformed)
                            } else {
                                Ok(d)
                            }
                        },
                    }
                },
            },
        },
    }
}

// ---------------------------------------------------------------------------
// CompatToolResolver: which runtime applies, and where it lives.
// ---------------------------------------------------------------------------

/// The chosen runtime: a concrete name, or the runtime's own default
/// (a mapping entry that is present but empty).
pub enum ToolSelection {
    Named(String),
    Autodetect,
}

/// The override mapping's entry for an application: the `name` leaf of
/// the application's node under the first `CompatToolMapping` node.
pub open spec fn override_entry(t: Tree, app: Seq<char>) -> Option<Seq<char>> {
    match t {
        Tree::Node { entries } => match first_node(entries, "CompatToolMapping"@) {
            None => None,
            Some(m) => match first_node(m, app) {
                None => None,
                Some(e) => first_leaf(e, "name"@),
            },
        },
        Tree::Leaf { .. } => None,
    }
}

/// Resolve the runtime name for an application from the client
/// configuration tree: an absent entry yields the caller's fallback,
/// an explicit empty entry the autodetect default, and any other entry
/// is returned verbatim.
pub fn resolve_name(cfg: &Value, app_id: &str, fallback: &str) -> (r: ToolSelection)
    ensures
        match override_entry(cfg@, app_id@) {
            None => r matches ToolSelection::Named(n) && n@ == fallback@,
            Some(name) => if name.len() == 0 {
                r is Autodetect
            } else {
                r matches ToolSelection::Named(n) && n@ == name
            },
        },
{
    match cfg {
        Value::Leaf(_) => ToolSelection::Named(fallback.to_owned()),
        Value::Node(es) => {
            proof {
                lemma_node_view(*es);
            }
            match find_first_node(es, "CompatToolMapping") {
                None => ToolSelection::Named(fallback.to_owned()),
                Some(m) => match find_first_node(m, app_id) {
                    None => ToolSelection::Named(fallback.to_owned()),
                    Some(e) => match find_first_leaf(e, "name") {
                        None => ToolSelection::Named(fallback.to_owned()),
                        Some(name) => {
                            if name.unicode_len() == 0 {
                                ToolSelection::Autodetect
                            } else {
                                ToolSelection::Named(name)
                            }
                        },
                    },
                },
            }
        },
    }
}

/// Resolve a runtime name to a path: the first library root whose
/// tools directory has it wins; otherwise a runtime bundled with the
/// client installation itself; otherwise `CompatToolNotFound`.
pub fn resolve_path(fs: &Snapshot, roots: &Vec<String>, client_root: &str, tool_name: &str) -> (r:
    Result<String, ResolveError>)
    ensures
        match r {
            Ok(p) => (exists|i: int|
                0 <= i < roots@.len() && p@ == tools_dir(#[trigger] roots@[i]@, tool_name@)
                    && fs.has_dir_spec(tools_dir(roots@[i]@, tool_name@)) && (forall|j: int|
                    0 <= j < i ==> !fs.has_dir_spec(tools_dir(#[trigger] roots@[j]@, tool_name@))))
                || ((forall|i: int|
                    0 <= i < roots@.len() ==> !fs.has_dir_spec(
                        tools_dir(#[trigger] roots@[i]@, tool_name@),
                    )) && p@ == common_dir(client_root@, tool_name@) && fs.has_dir_spec(
                    common_dir(client_root@, tool_name@),
                )),
            Err(e) => e matches ResolveError::CompatToolNotFound(n) && n@ == tool_name@ && (
            forall|i: int|
                0 <= i < roots@.len() ==> !fs.has_dir_spec(
                    tools_dir(#[trigger] roots@[i]@, tool_name@),
                )) && !fs.has_dir_spec(common_dir(client_root@, tool_name@)),
        },
{
    let mut i: usize = 0;
    while i < roots.len()
        invariant
            i <= roots@.len(),
            forall|j: int|
                0 <= j < i ==> !fs.has_dir_spec(tools_dir(#[trigger] roots@[j]@, tool_name@)),
        decreases roots@.len() - i,
    {
        let td = concat3(roots[i].as_str(), "/steamapps/compatibilitytools.d/", tool_name);
        proof {
            assert(td@ == tools_dir(roots@[i as int]@, tool_name@));
        }
        if fs.dir_exists(td.as_str()) {
            return Ok(td);
        }
        i += 1;
    }
    let cd = concat3(client_root, "/steamapps/common/", tool_name);
    proof {
        assert(cd@ == common_dir(client_root@, tool_name@));
    }
    if fs.dir_exists(cd.as_str()) {
        return Ok(cd);
    }
    Err(ResolveError::CompatToolNotFound(tool_name.to_owned()))
}

// ---------------------------------------------------------------------------
// LaunchOptionsResolver: the per-user launch-options string, if any.
// ---------------------------------------------------------------------------

/// A user's launch-options entry for an application: the first
/// `LaunchOptions` leaf of the application's node in that user's
/// configuration tree; `None` if the file, node or leaf is absent or
/// the file does not parse.
pub open spec fn launch_entry(fs: Snapshot, root: Seq<char>, uid: Seq<char>, app: Seq<char>)
    -> Option<Seq<char>> {
    match find_file(fs.files@, user_cfg_path(root, uid)) {
        None => None,
        Some(f) => match spec_parse(f.content@) {
            ParseOut::Parsed(es) => match first_node(es, app) {
                None => None,
                Some(e) => first_leaf(e, "LaunchOptions"@),
            },
            ParseOut::Failed(_, _) => None,
        },
    }
}

/// The error of a user's configuration file, if present and unparsable.
pub open spec fn user_file_bad(fs: Snapshot, root: Seq<char>, uid: Seq<char>) -> Option<
    (ErrKind, int),
> {
    match find_file(fs.files@, user_cfg_path(root, uid)) {
        None => None,
        Some(f) => match spec_parse(f.content@) {
            ParseOut::Parsed(_) => None,
            ParseOut::Failed(k, p) => Some((k, line_of(f.content@, p))),
        },
    }
}

/// Modification time of a user's configuration file; absent files get 0.
pub open spec fn user_mtime(fs: Snapshot, root: Seq<char>, uid: Seq<char>) -> u64 {
    match find_file(fs.files@, user_cfg_path(root, uid)) {
        None => 0,
        Some(f) => f.mtime,
    }
}

/// A directory entry's user id, when it is a direct child of the
/// client's user-data directory.
pub open spec fn uid_of(root: Seq<char>, d: Seq<char>) -> Option<Seq<char>> {
    let pre = root + "/userdata/"@;
    if d.len() > pre.len() && d.subrange(0, pre.len() as int) == pre && !has_separator(
        d.skip(pre.len() as int),
    ) {
        Some(d.skip(pre.len() as int))
    } else {
        None
    }
}

pub open spec fn users_of_dirs(root: Seq<char>, ds: Seq<Seq<char>>) -> Seq<Seq<char>>
    decreases ds.len(),
{
    if ds.len() == 0 {
        Seq::empty()
    } else {
        (match uid_of(root, ds[0]) {
            Some(u) => seq![u],
            None => Seq::empty(),
        }) + users_of_dirs(root, ds.drop_first())
    }
}

/// The user ids the snapshot knows about, in snapshot order.
pub open spec fn users_of(fs: Snapshot, root: Seq<char>) -> Seq<Seq<char>> {
    users_of_dirs(root, strs_view(fs.dirs@))
}

/// The first enumerated user whose configuration file is unparsable.
pub open spec fn first_bad_user(fs: Snapshot, root: Seq<char>, us: Seq<Seq<char>>) -> Option<
    (ErrKind, int),
>
    decreases us.len(),
{
    if us.len() == 0 {
        None
    } else {
        match user_file_bad(fs, root, us[0]) {
            Some(x) => Some(x),
            None => first_bad_user(fs, root, us.drop_first()),
        }
    }
}

/// One user's launch-options entry with the backing file's mtime.
fn user_launch_entry(fs: &Snapshot, root: &str, uid: &str, app_id: &str) -> (r: Result<
    Option<(String, u64)>,
    SyntaxError,
>)
    ensures
        match r {
            Ok(o) => user_file_bad(*fs, root@, uid@) is None && match o {
                Some(sm) => launch_entry(*fs, root@, uid@, app_id@) == Some(sm.0@) && sm.1
                    == user_mtime(*fs, root@, uid@),
                None => launch_entry(*fs, root@, uid@, app_id@) is None,
            },
            Err(se) => user_file_bad(*fs, root@, uid@) == Some((se.kind, se.line as int)),
        },
{
    let up = concat3(root, "/userdata/", uid);
    let up2 = concat2(up.as_str(), "/config/localconfig.vdf");
    proof {
        assert(up2@ == user_cfg_path(root@, uid@));
    }
    match fs.read_file(up2.as_str()) {
        None => Ok(None),
        Some(f) => match parse(f.content.as_str()) {
            Err(e) => Err(e),
            Ok(v) => match &v {
                Value::Leaf(_) => {
                    // parse always yields the implicit root node
                    proof {
                        assert(false);
                    }
                    Ok(None)
                },
                Value::Node(es) => {
                    proof {
                        lemma_node_view(*es);
                    }
                    match find_first_node(es, app_id) {
                        None => Ok(None),
                        Some(e) => match find_first_leaf(e, "LaunchOptions") {
                            None => Ok(None),
                            Some(s) => Ok(Some((s, f.mtime))),
                        },
                    }
                },
            },
        },
    }
}

/// Whether, among users with an entry, `b` beats or equals `a`:
/// later mtime first, larger user id (see `uid_less`) on a tie.
pub open spec fn no_better(fs: Snapshot, root: Seq<char>, best: Seq<char>, other: Seq<char>)
    -> bool {
    user_mtime(fs, root, other) < user_mtime(fs, root, best) || (user_mtime(fs, root, other)
        == user_mtime(fs, root, best) && !crate::text::uid_less(best, other))
}

/// Enumerate the users under the client's user-data directory, in
/// snapshot order.
fn enumerate_users(fs: &Snapshot, root: &str) -> (r: Vec<String>)
    ensures
        strs_view(r@) == users_of(*fs, root@),
{
    let pre = concat2(root, "/userdata/");
    let pre_len = pre.as_str().unicode_len();
    let mut out: Vec<String> = Vec::new();
    let ghost dv = strs_view(fs.dirs@);
    let mut i: usize = 0;
    proof {
        assert(dv.skip(0) =~= dv);
        assert(strs_view(out@) =~= Seq::<Seq<char>>::empty());
    }
    while i < fs.dirs.len()
        invariant
            i <= fs.dirs@.len(),
            dv == strs_view(fs.dirs@),
            pre@ == root@ + "/userdata/"@,
            pre_len == pre@.len(),
            strs_view(out@) + users_of_dirs(root@, dv.skip(i as int)) == users_of_dirs(root@, dv),
        decreases fs.dirs@.len() - i,
    {
        proof {
            assert(dv.skip(i as int).drop_first() =~= dv.skip(i + 1 as int));
            assert(dv.skip(i as int)[0] == fs.dirs@[i as int]@);
        }
        let ghost sv0 = strs_view(out@);
        let d = &fs.dirs[i];
        let dlen = d.as_str().unicode_len();
        if dlen > pre_len && crate::text::str_starts_with(d.as_str(), pre.as_str()) {
            let suffix = d.as_str().substring_char(pre_len, dlen);
            proof {
                assert(suffix@ =~= d@.skip(pre_len as int));
            }
            if !contains_separator(suffix) {
                out.push(suffix.to_owned());
                proof {
                    assert(strs_view(out@) =~= sv0 + seq![d@.skip(pre_len as int)]);
                }
            } else {
                proof {
                    assert(sv0 + Seq::<Seq<char>>::empty() =~= sv0);
                }
            }
        } else {
            proof {
                assert(sv0 + Seq::<Seq<char>>::empty() =~= sv0);
            }
        }
        proof {
            assert(strs_view(out@) + users_of_dirs(root@, dv.skip(i + 1 as int)) =~= sv0
                + users_of_dirs(root@, dv.skip(i as int)));
        }
        i += 1;
    }
    proof {
        assert(users_of_dirs(root@, dv.skip(fs.dirs@.len() as int)) =~= Seq::<Seq<char>>::empty());
        assert(strs_view(out@) + Seq::<Seq<char>>::empty() =~= strs_view(out@));
    }
    out
}

/// The per-user launch options for an application.
///
/// With a user id, only that user's tree is read; an unknown user
/// (no such user directory) fails. Without one, every user tree is
/// read, and among those with an entry the most recently modified
/// backing file wins, ties broken by the larger user id.
pub fn get_launch_options(
    fs: &Snapshot,
    root: &str,
    user_id: Option<&str>,
    app_id: &str,
) -> (r: Result<Option<String>, ResolveError>)
    ensures
        match user_id {
            Some(uid) => match r {
                Ok(o) => fs.has_dir_spec(user_dir(root@, uid@)) && user_file_bad(
                    *fs,
                    root@,
                    uid@,
                ) is None && match o {
                    Some(s) => launch_entry(*fs, root@, uid@, app_id@) == Some(s@),
                    None => launch_entry(*fs, root@, uid@, app_id@) is None,
                },
                Err(e) => match e {
                    ResolveError::UnknownUser(u) => u@ == uid@ && !fs.has_dir_spec(
                        user_dir(root@, uid@),
                    ),
                    ResolveError::Syntax(se) => fs.has_dir_spec(user_dir(root@, uid@))
                        && user_file_bad(*fs, root@, uid@) == Some((se.kind, se.line as int)),
                    _ => false,
                },
            },
            None => {
                let us = users_of(*fs, root@);
                match r {
                    Ok(o) => first_bad_user(*fs, root@, us) is None && match o {
                        Some(s) => exists|i: int|
                            0 <= i < us.len() && launch_entry(*fs, root@, #[trigger] us[i], app_id@)
                                == Some(s@) && (forall|j: int|
                                0 <= j < us.len() && launch_entry(
                                    *fs,
                                    root@,
                                    #[trigger] us[j],
                                    app_id@,
                                ) is Some ==> no_better(*fs, root@, us[i], us[j])),
                        None => forall|j: int|
                            0 <= j < us.len() ==> launch_entry(
                                *fs,
                                root@,
                                #[trigger] us[j],
                                app_id@,
                            ) is None,
                    },
                    Err(e) => e matches ResolveError::Syntax(se) && first_bad_user(*fs, root@, us)
                        == Some((se.kind, se.line as int)),
                }
            },
        },
{
    match user_id {
        Some(uid) => {
            let ud = concat3(root, "/userdata/", uid);
            proof {
                assert(ud@ == user_dir(root@, uid@));
            }
            if !fs.dir_exists(ud.as_str()) {
                return Err(ResolveError::UnknownUser(uid.to_owned()));
            }
            match user_launch_entry(fs, root, uid, app_id) {
                Err(se) => Err(ResolveError::Syntax(se)),
                Ok(None) => Ok(None),
                Ok(Some(sm)) => Ok(Some(sm.0)),
            }
        },
        None => {
            let users = enumerate_users(fs, root);
            let ghost us = users_of(*fs, root@);
            let mut best: Option<(String, u64, String)> = None;
            let mut i: usize = 0;
            proof {
                assert(us.skip(0) =~= us);
            }
            while i < users.len()
                invariant
                    user_id is None,
                    us == users_of(*fs, root@),
                    i <= users@.len(),
                    strs_view(users@) == us,
                    first_bad_user(*fs, root@, us) == first_bad_user(
                        *fs,
                        root@,
                        us.skip(i as int),
                    ),
                    match best {
                        None => forall|j: int|
                            0 <= j < i ==> launch_entry(
                                *fs,
                                root@,
                                #[trigger] us[j],
                                app_id@,
                            ) is None,
                        Some(b) => exists|bi: int|
                            0 <= bi < i && b.0@ == #[trigger] us[bi] && launch_entry(
                                *fs,
                                root@,
                                us[bi],
                                app_id@,
                            ) == Some(b.2@) && b.1 == user_mtime(*fs, root@, us[bi]) && (forall|
                                j: int,
                            |
                                0 <= j < i && launch_entry(
                                    *fs,
                                    root@,
                                    #[trigger] us[j],
                                    app_id@,
                                ) is Some ==> no_better(*fs, root@, b.0@, us[j])),
                    },
                decreases users@.len() - i,
            {
                proof {
                    assert(us.skip(i as int).drop_first() =~= us.skip(i + 1 as int));
                    assert(us.skip(i as int)[0] == users@[i as int]@);
                }
                match user_launch_entry(fs, root, users[i].as_str(), app_id) {
                    Err(se) => {
                        proof {
                            assert(first_bad_user(*fs, root@, us.skip(i as int)) == Some(
                                (se.kind, se.line as int),
                            ));
                        }
                        return Err(ResolveError::Syntax(se));
                    },
                    Ok(None) => {
                    },
                    Ok(Some(sm)) => {
                        let ghost prev = best;
                        let replace = match &best {
                            None => true,
                            Some(b) => {
                                sm.1 > b.1 || (sm.1 == b.1 && crate::text::uid_less_exec(
                                    b.0.as_str(),
                                    users[i].as_str(),
                                ))
                            },
                        };
                        if replace {
                            proof {
                                crate::text::lemma_lex_less_irrefl(us[i as int]);
                                assert forall|j: int|
                                    0 <= j < i + 1 && launch_entry(
                                        *fs,
                                        root@,
                                        #[trigger] us[j],
                                        app_id@,
                                    ) is Some implies no_better(
                                    *fs,
                                    root@,
                                    us[i as int],
                                    us[j],
                                ) by {
                                    if j < i as int {
                                        match prev {
                                            None => {
                                            },
                                            Some(pb) => {
                                                if crate::text::uid_less(us[i as int], us[j]) {
                                                    if sm.1 == pb.1 && user_mtime(
                                                        *fs,
                                                        root@,
                                                        us[j],
                                                    ) == pb.1 {
                                                        crate::text::lemma_uid_less_trans(
                                                            pb.0@,
                                                            us[i as int],
                                                            us[j],
                                                        );
                                                    }
                                                }
                                            },
                                        }
                                    }
                                }
                            }
                            best = Some((users[i].clone(), sm.1, sm.0));
                        }
                    },
                }
                i += 1;
            }
            proof {
                assert(us.skip(users@.len() as int) =~= Seq::<Seq<char>>::empty());
            }
            match best {
                None => Ok(None),
                Some(b) => Ok(Some(b.2)),
            }
        },
    }
}

// ---------------------------------------------------------------------------
// Facade: the handful of queries a caller needs, over one snapshot.
// ---------------------------------------------------------------------------

/// A client installation: a snapshot of its on-disk state and its root
/// path. Every query is read-only and independent of the others.
pub struct Steam {
    pub fs: Snapshot,
    pub root: String,
}

impl Steam {
    /// Accept a client root only if it has the expected base layout.
    pub fn new(fs: Snapshot, root: String) -> (r: Result<Steam, ResolveError>)
        ensures
            match r {
                Ok(st) => st.fs == fs && st.root == root && fs.has_dir_spec(
                    steamapps_dir(root@),
                ),
                Err(e) => e is NotAClientRoot && !fs.has_dir_spec(steamapps_dir(root@)),
            },
    {
        let sa = concat2(root.as_str(), "/steamapps");
        if !fs.dir_exists(sa.as_str()) {
            return Err(ResolveError::NotAClientRoot);
        }
        Ok(Steam { fs, root })
    }

    pub fn root_path(&self) -> (r: &str)
        ensures
            r@ == self.root@,
    {
        self.root.as_str()
    }

    /// The first library root, in discovery order, that owns the
    /// application.
    pub fn find_library_for_app(&self, app_id: &str) -> (r: Result<String, ResolveError>)
        ensures
            ({
                let lr = library_roots(self.fs, self.root@);
                match r {
                    Ok(lib) => self.fs.has_dir_spec(steamapps_dir(self.root@)) && listing_bad(
                        self.fs,
                        self.root@,
                    ) is None && exists|i: int|
                        0 <= i < lr.len() && lib@ == #[trigger] lr[i] && owns(self.fs, lr[i], app_id@)
                            && (forall|j: int| 0 <= j < i ==> !owns(self.fs, #[trigger] lr[j], app_id@)),
                    Err(e) => match e {
                        ResolveError::NotAClientRoot => !self.fs.has_dir_spec(
                            steamapps_dir(self.root@),
                        ),
                        ResolveError::Syntax(se) => self.fs.has_dir_spec(steamapps_dir(self.root@))
                            && listing_bad(self.fs, self.root@) == Some((se.kind, se.line as int)),
                        ResolveError::NotFound => self.fs.has_dir_spec(steamapps_dir(self.root@))
                            && listing_bad(self.fs, self.root@) is None && forall|i: int|
                            0 <= i < lr.len() ==> !owns(self.fs, #[trigger] lr[i], app_id@),
                        _ => false,
                    },
                }
            }),
    {
        let ghost lr = library_roots(self.fs, self.root@);
        match discover(&self.fs, self.root.as_str()) {
            Err(e) => Err(e),
            Ok(roots) => {
                proof {
                    assert(lr == strs_view(roots@));
                    assert(lr.len() == roots@.len());
                }
                match find_owning_library(&self.fs, &roots, app_id) {
                    Ok(lib) => {
                        proof {
                            let i = choose|i: int|
                                0 <= i < roots@.len() && lib@ == #[trigger] roots@[i]@ && owns(
                                    self.fs,
                                    roots@[i]@,
                                    app_id@,
                                ) && (forall|j: int|
                                    0 <= j < i ==> !owns(self.fs, #[trigger] roots@[j]@, app_id@));
                            assert(lr[i] == roots@[i]@);
                            assert forall|j: int| 0 <= j < i implies !owns(
                                self.fs,
                                #[trigger] lr[j],
                                app_id@,
                            ) by {
                                assert(lr[j] == roots@[j]@);
                            }
                            assert(0 <= i < lr.len() && lib@ == lr[i] && owns(
                                self.fs,
                                lr[i],
                                app_id@,
                            ));
                        }
                        Ok(lib)
                    },
                    Err(e) => {
                        proof {
                            assert forall|i: int| 0 <= i < lr.len() implies !owns(
                                self.fs,
                                #[trigger] lr[i],
                                app_id@,
                            ) by {
                                assert(lr[i] == roots@[i]@);
                            }
                        }
                        Err(e)
                    },
                }
            },
        }
    }

    /// The application's full install directory under a library root.
    pub fn get_install_dir(&self, library: &str, app_id: &str) -> (r: Result<String, ResolveError>)
        ensures
            match r {
                Ok(p) => find_file(self.fs.files@, manifest_path(library@, app_id@)) matches Some(f)
                    && spec_parse(f.content@) matches ParseOut::Parsed(es) && first_leaf(
                    es,
                    "installdir"@,
                ) matches Some(d) && !has_separator(d) && p@ == common_dir(library@, d),
                Err(e) => match e {
                    ResolveError::NotFound => (find_file(
                        self.fs.files@,
                        manifest_path(library@, app_id@),
                    ) is None) || (find_file(self.fs.files@, manifest_path(library@, app_id@))
                        matches Some(f) && spec_parse(f.content@) matches ParseOut::Parsed(es)
                        && first_leaf(es, "installdir"@) is None),
                    ResolveError::Syntax(se) => find_file(
                        self.fs.files@,
                        manifest_path(library@, app_id@),
                    ) matches Some(f) && spec_parse(f.content@) matches ParseOut::Failed(k, p)
                        && se.kind == k && se.line as int == line_of(f.content@, p),
                    ResolveError::Malformed => find_file(
                        self.fs.files@,
                        manifest_path(library@, app_id@),
                    ) matches Some(f) && spec_parse(f.content@) matches ParseOut::Parsed(es)
                        && first_leaf(es, "installdir"@) matches Some(d) && has_separator(d),
                    _ => false,
                },
            },
    {
        match read_install_dir(&self.fs, library, app_id) {
            Err(e) => Err(e),
            Ok(d) => Ok(concat3(library, "/steamapps/common/", d.as_str())),
        }
    }

    /// The runtime chosen for an application by the client's global
    /// configuration, with the caller's fallback.
    pub fn get_compat_tool(&self, app_id: &str, fallback: &str) -> (r: Result<
        ToolSelection,
        ResolveError,
    >)
        ensures
            match find_file(self.fs.files@, config_path(self.root@)) {
                None => r matches Ok(ts) && ts matches ToolSelection::Named(n) && n@ == fallback@,
                Some(f) => match spec_parse(f.content@) {
                    ParseOut::Failed(k, p) => r matches Err(e) && e matches ResolveError::Syntax(se)
                        && se.kind == k && se.line as int == line_of(f.content@, p),
                    ParseOut::Parsed(es) => r matches Ok(ts) && (match override_entry(
                        Tree::Node { entries: es },
                        app_id@,
                    ) {
                        None => ts matches ToolSelection::Named(n) && n@ == fallback@,
                        Some(name) => if name.len() == 0 {
                            ts is Autodetect
                        } else {
                            ts matches ToolSelection::Named(n) && n@ == name
                        },
                    }),
                },
            },
    {
        let cp = concat2(self.root.as_str(), "/config/config.vdf");
        proof {
            assert(cp@ == config_path(self.root@));
        }
        match self.fs.read_file(cp.as_str()) {
            None => Ok(ToolSelection::Named(fallback.to_owned())),
            Some(f) => match parse(f.content.as_str()) {
                Err(e) => Err(ResolveError::Syntax(e)),
                Ok(v) => Ok(resolve_name(&v, app_id, fallback)),
            },
        }
    }

    /// Where the chosen runtime lives, searching the library roots'
    /// tools directories first and the client's own bundle second.
    pub fn get_proton_path(&self, roots: &Vec<String>, tool_name: &str) -> (r: Result<
        String,
        ResolveError,
    >)
        ensures
            match r {
                Ok(p) => (exists|i: int|
                    0 <= i < roots@.len() && p@ == tools_dir(#[trigger] roots@[i]@, tool_name@)
                        && self.fs.has_dir_spec(tools_dir(roots@[i]@, tool_name@)) && (forall|j: int|
                        0 <= j < i ==> !self.fs.has_dir_spec(
                            tools_dir(#[trigger] roots@[j]@, tool_name@),
                        ))) || ((forall|i: int|
                    0 <= i < roots@.len() ==> !self.fs.has_dir_spec(
                        tools_dir(#[trigger] roots@[i]@, tool_name@),
                    )) && p@ == common_dir(self.root@, tool_name@) && self.fs.has_dir_spec(
                    common_dir(self.root@, tool_name@),
                )),
                Err(e) => e matches ResolveError::CompatToolNotFound(n) && n@ == tool_name@ && (
                forall|i: int|
                    0 <= i < roots@.len() ==> !self.fs.has_dir_spec(
                        tools_dir(#[trigger] roots@[i]@, tool_name@),
                    )) && !self.fs.has_dir_spec(common_dir(self.root@, tool_name@)),
            },
    {
        resolve_path(&self.fs, roots, self.root.as_str(), tool_name)
    }

    /// The per-application compatibility data path; a pure derivation,
    /// the directory need not exist yet.
    pub fn get_compat_data_path(&self, library: &str, app_id: &str) -> (r: String)
        ensures
            r@ == compat_data_dir(library@, app_id@),
    {
        concat3(library, "/steamapps/compatdata/", app_id)
    }

    /// The per-user launch options, as `get_launch_options`.
    pub fn launch_options(&self, user_id: Option<&str>, app_id: &str) -> (r: Result<
        Option<String>,
        ResolveError,
    >)
        ensures
            match user_id {
                Some(uid) => match r {
                    Ok(o) => self.fs.has_dir_spec(user_dir(self.root@, uid@)) && user_file_bad(
                        self.fs,
                        self.root@,
                        uid@,
                    ) is None && match o {
                        Some(s) => launch_entry(self.fs, self.root@, uid@, app_id@) == Some(s@),
                        None => launch_entry(self.fs, self.root@, uid@, app_id@) is None,
                    },
                    Err(e) => match e {
                        ResolveError::UnknownUser(u) => u@ == uid@ && !self.fs.has_dir_spec(
                            user_dir(self.root@, uid@),
                        ),
                        ResolveError::Syntax(se) => self.fs.has_dir_spec(user_dir(self.root@, uid@))
                            && user_file_bad(self.fs, self.root@, uid@) == Some(
                            (se.kind, se.line as int),
                        ),
                        _ => false,
                    },
                },
                None => {
                    let us = users_of(self.fs, self.root@);
                    match r {
                        Ok(o) => first_bad_user(self.fs, self.root@, us) is None && match o {
                            Some(s) => exists|i: int|
                                0 <= i < us.len() && launch_entry(
                                    self.fs,
                                    self.root@,
                                    #[trigger] us[i],
                                    app_id@,
                                ) == Some(s@) && (forall|j: int|
                                    0 <= j < us.len() && launch_entry(
                                        self.fs,
                                        self.root@,
                                        #[trigger] us[j],
                                        app_id@,
                                    ) is Some ==> no_better(self.fs, self.root@, us[i], us[j])),
                            None => forall|j: int|
                                0 <= j < us.len() ==> launch_entry(
                                    self.fs,
                                    self.root@,
                                    #[trigger] us[j],
                                    app_id@,
                                ) is None,
                        },
                        Err(e) => e matches ResolveError::Syntax(se) && first_bad_user(
                            self.fs,
                            self.root@,
                            us,
                        ) == Some((se.kind, se.line as int)),
                    }
                },
            },
    {
        get_launch_options(&self.fs, self.root.as_str(), user_id, app_id)
    }
}

} // verus!
