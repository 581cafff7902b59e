//! The project generator: which entries of a template tree are generated,
//! and where each one lands in the destination tree.
use vstd::hash_map::StringHashMap;
use vstd::prelude::*;

use crate::config::{decode_defaults, decoded_defaults, ConfigError};
use crate::placeholder::Style;
use crate::template::{all_random_suffixes, render_body, rendered, Params};
use crate::text::{chars_of, push_all, same_text, string_of};

verus! {

/// The format of a template's default-parameters file.
#[derive(Copy, Clone, Debug, PartialEq, Eq, Structural)]
pub enum Configuration {
    /// A Java properties file, `default.properties`.
    JavaProps,
    /// A TOML file, `Rig.toml`.
    Toml,
}

/// The name of the default-parameters file for a configuration format.
pub open spec fn config_file(c: Configuration) -> Seq<char> {
    match c {
        Configuration::JavaProps => "default.properties"@,
        Configuration::Toml => "Rig.toml"@,
    }
}

/// How a template tree is laid out and read.
pub struct Project {
    /// The subdirectory of the fetched tree that holds the template, if any.
    pub root_path: Option<String>,
    pub config: Configuration,
    /// The placeholder grammar of file contents.
    pub style: Style,
    /// Whether a name that is exactly `$package$` renders as nested
    /// directories.
    pub force_packaged: bool,
}

impl Default for Project {
    fn default() -> (r: Project)
        ensures
            r.root_path is None,
            r.config == Configuration::Toml,
            r.style == Style::Content,
            !r.force_packaged,
    {
        Project { root_path: None, config: Configuration::Toml, style: Style::Content, force_packaged: false }
    }
}

/// One entry of a template tree: its path below the template root, one
/// segment per directory level, and whether it is a directory.
pub struct TreeEntry {
    pub segments: Vec<String>,
    pub is_dir: bool,
}

/// Where an entry of the template tree lands: the index of the entry, its
/// path below the destination root, and whether it is a directory.
pub struct Placement {
    pub entry: usize,
    pub dest: Vec<String>,
    pub is_dir: bool,
}

/// The views of a list of strings.
pub open spec fn strings(v: Seq<String>) -> Seq<Seq<char>> {
    v.map_values(|s: String| s@)
}

/// Template path segments mapped to the names they were rendered to, filled
/// as the walk renders names that change.
pub struct RenameTable {
    map: StringHashMap<String>,
}

impl View for RenameTable {
    type V = Map<Seq<char>, Seq<char>>;

    closed spec fn view(&self) -> Map<Seq<char>, Seq<char>> {
        self.map@.map_values(|v: String| v@)
    }
}

/// What segment `s` of an ancestor stands for in the destination.
pub open spec fn lookup_segment(t: Map<Seq<char>, Seq<char>>, s: Seq<char>) -> Seq<char> {
    if t.contains_key(s) {
        t[s]
    } else {
        s
    }
}

/// The table after entry `base` rendered to `name`: a changed name is
/// remembered, an unchanged one is not.
pub open spec fn recorded(t: Map<Seq<char>, Seq<char>>, base: Seq<char>, name: Seq<char>) -> Map<
    Seq<char>,
    Seq<char>,
> {
    if name != base {
        t.insert(base, name)
    } else {
        t
    }
}

/// The destination of an entry with path `segs` whose own name rendered to
/// `name`: its ancestors as the table has them, then `name`.
pub open spec fn destination(t: Map<Seq<char>, Seq<char>>, segs: Seq<Seq<char>>, name: Seq<char>) -> Seq<
    Seq<char>,
> {
    segs.drop_last().map_values(|s: Seq<char>| lookup_segment(t, s)).push(name)
}

/// The template of an entry's name: with `force` a name that is exactly
/// `$package$` also gets the path transform.
pub open spec fn name_template(force: bool, base: Seq<char>) -> Seq<char> {
    if force && base == "$package$"@ {
        "$package__packaged$"@
    } else {
        base
    }
}

/// What an entry's name renders to.
pub open spec fn rendered_name(
    force: bool,
    base: Seq<char>,
    params: Map<Seq<char>, Seq<char>>,
    draws: Seq<Seq<char>>,
) -> Seq<char> {
    rendered(Style::PathSegment, name_template(force, base), params, draws)
}

impl RenameTable {
    /// An empty table.
    pub fn new() -> (r: RenameTable)
        ensures
            r@ == Map::<Seq<char>, Seq<char>>::empty(),
    {
        let r = RenameTable { map: StringHashMap::new() };
        assert(r@ =~= Map::<Seq<char>, Seq<char>>::empty());
        r
    }

    /// What segment `s` stands for in the destination.
    pub fn lookup(&self, s: &str) -> (r: String)
        ensures
            r@ == lookup_segment(self@, s@),
    {
        match self.map.get(s) {
            Some(v) => v.clone(),
            None => s.to_owned(),
        }
    }

    /// Remembers that `base` rendered to `name`, where the two differ.
    pub fn record(&mut self, base: String, name: String)
        ensures
            final(self)@ == recorded(old(self)@, base@, name@),
    {
        let ghost b = base@;
        let ghost n = name@;
        if base != name {
            self.map.insert(base, name);
            assert(self@ =~= old(self)@.insert(b, n));
        }
    }
}

/// Path `b` below directory `a`, with one `/` between them.
pub open spec fn join_path(a: Seq<char>, b: Seq<char>) -> Seq<char> {
    if a.len() == 0 || a.last() == '/' {
        a + b
    } else {
        a + seq!['/'] + b
    }
}

/// The view of a tree entry: its path segments and whether it is a directory.
pub open spec fn entry_views(v: Seq<TreeEntry>) -> Seq<(Seq<Seq<char>>, bool)> {
    v.map_values(|e: TreeEntry| (strings(e.segments@), e.is_dir))
}

/// The view of a placement: entry index, destination segments, directory.
pub open spec fn placement_views(v: Seq<Placement>) -> Seq<(int, Seq<Seq<char>>, bool)> {
    v.map_values(|p: Placement| (p.entry as int, strings(p.dest@), p.is_dir))
}

/// Whether an entry lies in git metadata: below a `.git` directory, or a
/// `.git` directory itself.
pub open spec fn in_git_metadata(segs: Seq<Seq<char>>, is_dir: bool) -> bool {
    (exists|j: int| 0 <= j < segs.len() - 1 && #[trigger] segs[j] == ".git"@) || (is_dir
        && segs.len() > 0 && segs.last() == ".git"@)
}

/// Whether the walk leaves an entry out: the root itself, the
/// default-parameters file at the root, and git metadata.
pub open spec fn skipped(config: Seq<char>, segs: Seq<Seq<char>>, is_dir: bool) -> bool {
    segs.len() == 0 || segs == seq![config] || in_git_metadata(segs, is_dir)
}

/// The placements and the rename table after the walk has taken the entries
/// of `es` in order; entry `i` draws `draws[i]` for its name.
pub open spec fn plan_of(
    force: bool,
    config: Seq<char>,
    es: Seq<(Seq<Seq<char>>, bool)>,
    params: Map<Seq<char>, Seq<char>>,
    draws: Seq<Seq<Seq<char>>>,
) -> (Seq<(int, Seq<Seq<char>>, bool)>, Map<Seq<char>, Seq<char>>)
    decreases es.len(),
{
    if es.len() == 0 {
        (seq![], Map::empty())
    } else {
        let (ps, t) = plan_of(force, config, es.drop_last(), params, draws);
        let i = es.len() - 1;
        let e = es.last();
        if skipped(config, e.0, e.1) {
            (ps, t)
        } else {
            let name = rendered_name(force, e.0.last(), params, draws[i]);
            (ps.push((i, destination(t, e.0, name), e.1)), recorded(t, e.0.last(), name))
        }
    }
}

proof fn lemma_plan_of_prefix(
    force: bool,
    config: Seq<char>,
    es: Seq<(Seq<Seq<char>>, bool)>,
    params: Map<Seq<char>, Seq<char>>,
    d1: Seq<Seq<Seq<char>>>,
    d2: Seq<Seq<Seq<char>>>,
)
    requires
        forall|j: int| 0 <= j < es.len() ==> d1[j] == d2[j],
    ensures
        plan_of(force, config, es, params, d1) == plan_of(force, config, es, params, d2),
    decreases es.len(),
{
    if es.len() > 0 {
        lemma_plan_of_prefix(force, config, es.drop_last(), params, d1, d2);
    }
}

/// A renamed directory's new name reaches its descendants: after the walk
/// has placed directory `parents/name`, an entry `parents/name/child` lands
/// in that directory's destination, under the child's rendered name. This
/// holds unless an earlier, different rendering of `name` is still in the
/// table where the ancestors or the directory itself would meet it.
pub proof fn lemma_rename_reaches_descendants(
    force: bool,
    params: Map<Seq<char>, Seq<char>>,
    t: Map<Seq<char>, Seq<char>>,
    parents: Seq<Seq<char>>,
    name: Seq<char>,
    child: Seq<char>,
    d1: Seq<Seq<char>>,
    d2: Seq<Seq<char>>,
)
    requires
        rendered_name(force, name, params, d1) == name ==> lookup_segment(t, name) == name,
        parents.contains(name) ==> lookup_segment(t, name) == rendered_name(force, name, params, d1),
    ensures
        ({
            let n1 = rendered_name(force, name, params, d1);
            let n2 = rendered_name(force, child, params, d2);
            let dir = parents.push(name);
            destination(recorded(t, name, n1), dir.push(child), n2) == destination(t, dir, n1).push(n2)
        }),
{
    let n1 = rendered_name(force, name, params, d1);
    let n2 = rendered_name(force, child, params, d2);
    let dir = parents.push(name);
    let t2 = recorded(t, name, n1);
    assert forall|p: Seq<char>| parents.contains(p) implies lookup_segment(t2, p) == lookup_segment(t, p) by {
    }
    assert(lookup_segment(t2, name) == n1);
    let lhs = destination(t2, dir.push(child), n2);
    let rhs = destination(t, dir, n1).push(n2);
    assert(dir.push(child).drop_last() =~= dir);
    assert(dir.drop_last() =~= parents);
    assert forall|j: int| 0 <= j < lhs.len() implies lhs[j] == rhs[j] by {
        if j < parents.len() {
            assert(parents.contains(parents[j]));
        }
    }
    assert(lhs =~= rhs);
}

impl Project {
    /// A project whose files are content-style templates.
    pub fn new(root: Option<&str>, config: Configuration, packaged: bool) -> (r: Project)
        ensures
            r.root_path matches Some(p) ==> root matches Some(q) && p@ == q@,
            r.root_path is None <==> root is None,
            r.config == config,
            r.style == Style::Content,
            r.force_packaged == packaged,
    {
        let root_path = match root {
            Some(v) => Some(v.to_owned()),
            None => None,
        };
        Project { root_path, config, style: Style::Content, force_packaged: packaged }
    }

    /// A giter8 project: legacy-style files, a properties file of defaults,
    /// and package names rendered as directory trees.
    pub fn new_g8(root: Option<&str>) -> (r: Project)
        ensures
            r.root_path matches Some(p) ==> root matches Some(q) && p@ == q@,
            r.root_path is None <==> root is None,
            r.config == Configuration::JavaProps,
            r.style == Style::Legacy,
            r.force_packaged,
    {
        let root_path = match root {
            Some(v) => Some(v.to_owned()),
            None => None,
        };
        Project {
            root_path,
            config: Configuration::JavaProps,
            style: Style::Legacy,
            force_packaged: true,
        }
    }

    /// The name of the default-parameters file at the template root.
    pub fn config_name(&self) -> (r: &'static str)
        ensures
            r@ == config_file(self.config),
    {
        match self.config {
            Configuration::JavaProps => "default.properties",
            Configuration::Toml => "Rig.toml",
        }
    }

    /// Makes `root` the subdirectory that holds the template.
    pub fn set_root_dir(&mut self, root: &str)
        ensures
            final(self).root_path matches Some(p) && p@ == root@,
            final(self).config == old(self).config,
            final(self).style == old(self).style,
            final(self).force_packaged == old(self).force_packaged,
    {
        self.root_path = Some(root.to_owned());
    }

    fn place(&self, segs: &Vec<String>, table: &mut RenameTable, params: &Params) -> (r: (
        Vec<String>,
        Ghost<Seq<Seq<char>>>,
    ))
        requires
            segs@.len() >= 1,
        ensures
            all_random_suffixes(r.1@),
            strings(r.0@) == destination(
                old(table)@,
                strings(segs@),
                rendered_name(self.force_packaged, strings(segs@).last(), params@, r.1@),
            ),
            final(table)@ == recorded(
                old(table)@,
                strings(segs@).last(),
                rendered_name(self.force_packaged, strings(segs@).last(), params@, r.1@),
            ),
    {
        let n = segs.len();
        let mut dest: Vec<String> = Vec::new();
        let mut i: usize = 0;
        while i + 1 < n
            invariant
                n == segs@.len(),
                n >= 1,
                i + 1 <= n,
                table@ == old(table)@,
                dest@.len() == i,
                forall|j: int| 0 <= j < i ==> #[trigger] dest@[j]@ == lookup_segment(table@, segs@[j]@),
            decreases n - i,
        {
            dest.push(table.lookup(segs[i].as_str()));
            i = i + 1;
        }
        let base = chars_of(segs[n - 1].as_str());
        let body = if self.force_packaged && same_text(base.as_slice(), "$package$") {
            chars_of("$package__packaged$")
        } else {
            base
        };
        let mut out: Vec<char> = Vec::new();
        let d = render_body(Style::PathSegment, body.as_slice(), params, &mut out);
        let name = string_of(out.as_slice());
        let ghost segv = strings(segs@);
        assert(segv.last() == segs@[n - 1]@);
        assert(out@ =~= rendered_name(self.force_packaged, segv.last(), params@, d@));
        table.record(segs[n - 1].clone(), name.clone());
        dest.push(name);
        assert(strings(dest@) =~= destination(old(table)@, segv, out@));
        (dest, d)
    }

    /// The destination path, below the destination root, of the entry with
    /// path `segments`: each ancestor as the rename table has it, then the
    /// entry's own name rendered in path style. A name that rendering changes
    /// is remembered in `table` for the entry's descendants. Placeholders in
    /// the name that use `AddRandom` draw random suffixes.
    pub fn resolve_dirname(&self, segments: &Vec<String>, table: &mut RenameTable, params: &Params) -> (r: Vec<String>)
        ensures
            segments@.len() == 0 ==> r@.len() == 0 && final(table)@ == old(table)@,
            segments@.len() > 0 ==> exists|d: Seq<Seq<char>>|
                all_random_suffixes(d) && strings(r@) == #[trigger] destination(
                    old(table)@,
                    strings(segments@),
                    rendered_name(self.force_packaged, strings(segments@).last(), params@, d),
                ) && final(table)@ == recorded(
                    old(table)@,
                    strings(segments@).last(),
                    rendered_name(self.force_packaged, strings(segments@).last(), params@, d),
                ),
    {
        if segments.len() == 0 {
            return Vec::new();
        }
        let (dest, d) = self.place(segments, table, params);
        dest
    }

    /// Plans the generated tree: for each entry of `entries`, taken in walk
    /// order with parents before their descendants, where it lands, unless
    /// the walk leaves it out. Entry `i` draws `d[i]` for the random parts of
    /// its name.
    pub fn plan_tree(&self, entries: &Vec<TreeEntry>, params: &Params) -> (r: Vec<Placement>)
        ensures
            exists|d: Seq<Seq<Seq<char>>>|
                (forall|i: int| 0 <= i < d.len() ==> all_random_suffixes(#[trigger] d[i])) && d.len()
                    == entries@.len() && placement_views(r@) == #[trigger] plan_of(
                    self.force_packaged,
                    config_file(self.config),
                    entry_views(entries@),
                    params@,
                    d,
                ).0,
    {
        let mut table = RenameTable::new();
        let mut out: Vec<Placement> = Vec::new();
        let ghost mut ds: Seq<Seq<Seq<char>>> = seq![];
        let ghost es = entry_views(entries@);
        let ghost force = self.force_packaged;
        let ghost config = config_file(self.config);
        let mut i: usize = 0;
        while i < entries.len()
            invariant
                i <= entries@.len(),
                es == entry_views(entries@),
                force == self.force_packaged,
                config == config_file(self.config),
                ds.len() == i,
                forall|x: int| 0 <= x < ds.len() ==> all_random_suffixes(#[trigger] ds[x]),
                placement_views(out@) == plan_of(force, config, es.take(i as int), params@, ds).0,
                table@ == plan_of(force, config, es.take(i as int), params@, ds).1,
            decreases entries@.len() - i,
        {
            let e = &entries[i];
            let ghost pre = es.take(i as int);
            let ghost next = es.take(i + 1 as int);
            assert(next.drop_last() =~= pre);
            assert(next.last() == es[i as int]);
            assert(es[i as int] == (strings(e.segments@), e.is_dir));
            if self.skips(&e.segments, e.is_dir) {
                let ghost w = Seq::<Seq<char>>::empty();
                let ghost ds2 = ds.push(w);
                proof {
                    lemma_plan_of_prefix(force, config, pre, params@, ds, ds2);
                    ds = ds2;
                }
            } else {
                let ghost old_out = out@;
                let (dest, d) = self.place(&e.segments, &mut table, params);
                out.push(Placement { entry: i, dest, is_dir: e.is_dir });
                let ghost ds2 = ds.push(d@);
                proof {
                    lemma_plan_of_prefix(force, config, pre, params@, ds, ds2);
                    assert(ds2[i as int] == d@);
                    assert(placement_views(out@) =~= placement_views(old_out).push(placement_views(out@).last()));
                    ds = ds2;
                }
            }
            i = i + 1;
        }
        assert(es.take(i as int) =~= es);
        out
    }

    /// The effective template root: the configured subdirectory of
    /// `clone_root` where one is configured and `inner_exists` says it is
    /// there, else `clone_root` itself.
    pub fn resolve_root_dir(&self, clone_root: &str, inner_exists: bool) -> (r: String)
        ensures
            r@ == match self.root_path {
                Some(inner) => if inner_exists {
                    join_path(clone_root@, inner@)
                } else {
                    clone_root@
                },
                None => clone_root@,
            },
    {
        let mut buf = chars_of(clone_root);
        match &self.root_path {
            Some(inner) => {
                if inner_exists {
                    let n = buf.len();
                    if !(n == 0 || buf[n - 1] == '/') {
                        buf.push('/');
                    }
                    let tail = chars_of(inner.as_str());
                    push_all(&mut buf, tail.as_slice());
                }
            },
            None => {},
        }
        string_of(buf.as_slice())
    }

    /// The default parameters, decoded from the bytes of the
    /// default-parameters file in the configured format; `None` stands for a
    /// file that could not be read.
    pub fn default_params(&self, contents: Option<&[u8]>) -> (r: Result<Params, ConfigError>)
        ensures
            contents is None ==> r == Err::<Params, ConfigError>(ConfigError::IoFailure),
            contents matches Some(bytes) ==> match decoded_defaults(self.config, bytes@) {
                Some(m) => r is Ok && r->Ok_0@ == m && r->Ok_0.wf(),
                None => r == Err::<Params, ConfigError>(ConfigError::ConfigDecodeFailure),
            },
    {
        match contents {
            None => Err(ConfigError::IoFailure),
            Some(bytes) => decode_defaults(self.config, bytes),
        }
    }

    /// Whether the walk leaves out the entry with path `segs`.
    pub fn skips(&self, segs: &Vec<String>, is_dir: bool) -> (r: bool)
        ensures
            r == skipped(config_file(self.config), strings(segs@), is_dir),
    {
        let n = segs.len();
        if n == 0 {
            return true;
        }
        let name = self.config_name();
        let first = chars_of(segs[0].as_str());
        assert(strings(segs@)[0] == segs@[0]@);
        if n == 1 && same_text(first.as_slice(), name) {
            assert(strings(segs@) =~= seq![config_file(self.config)]);
            return true;
        }
        assert(n == 1 ==> strings(segs@) != seq![config_file(self.config)]) by {
            if n == 1 && strings(segs@) == seq![config_file(self.config)] {
                assert(strings(segs@)[0] == segs@[0]@);
            }
        }
        let mut j: usize = 0;
        while j + 1 < n
            invariant
                n == segs@.len(),
                n >= 1,
                j + 1 <= n,
                forall|x: int| 0 <= x < j ==> strings(segs@)[x] != ".git"@,
            decreases n - j,
        {
            let c = chars_of(segs[j].as_str());
            if same_text(c.as_slice(), ".git") {
                assert(strings(segs@)[j as int] == ".git"@);
                return true;
            }
            j = j + 1;
        }
        let last = chars_of(segs[n - 1].as_str());
        let r = is_dir && same_text(last.as_slice(), ".git");
        assert(strings(segs@).last() == segs@[n - 1]@);
        r
    }
}

} // verus!
