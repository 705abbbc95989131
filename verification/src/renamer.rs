//! Media-library renaming: naming a downloaded episode from its show
//! metadata, translating downloader paths, and planning the hard links that
//! materialise the archive layout.
use vstd::prelude::*;

use crate::text::{
    append_chars, append_str, chars_vec, decimal_u64, find_char, has_prefix, pad2_u64, rfind_char,
    spec_decimal, spec_find_char, spec_pad2, spec_rfind_char, spec_starts_with, string_from_chars,
};

verus! {

/// A copy of an optional string, equal to the original.
pub fn clone_opt_string(o: &Option<String>) -> (r: Option<String>)
    ensures
        r == *o,
{
    match o {
        Some(s) => Some(s.clone()),
        None => None,
    }
}

/// The renaming snapshot of one episode: everything needed to name its file
/// in the archive.
#[derive(Debug)]
pub struct BangumiInfo {
    pub show_name: String,
    pub episode_name: Option<String>,
    pub display_name: Option<String>,
    pub season: u64,
    pub episode: u64,
    pub category: Option<String>,
}

impl Clone for BangumiInfo {
    fn clone(&self) -> (r: Self)
        ensures
            r == *self,
    {
        BangumiInfo {
            show_name: self.show_name.clone(),
            episode_name: clone_opt_string(&self.episode_name),
            display_name: clone_opt_string(&self.display_name),
            season: self.season,
            episode: self.episode,
            category: clone_opt_string(&self.category),
        }
    }
}

impl Default for BangumiInfo {
    fn default() -> (r: Self)
        ensures
            r.show_name@ == Seq::<char>::empty(),
            r.episode_name is None,
            r.display_name is None,
            r.season == 0,
            r.episode == 0,
            r.category is None,
    {
        BangumiInfo {
            show_name: String::new(),
            episode_name: None,
            display_name: None,
            season: 0,
            episode: 0,
            category: None,
        }
    }
}

/// The ` name` suffix contributed by an optional annotation: empty when the
/// annotation is absent or empty.
pub open spec fn spec_name_suffix(o: Option<String>) -> Seq<char> {
    match o {
        Some(s) => if s@.len() > 0 {
            seq![' '] + s@
        } else {
            Seq::empty()
        },
        None => Seq::empty(),
    }
}

/// The file name of an episode, without extension:
/// `{show} S{nn}E{nn}[ {episode_name}][ {display_name}]`.
pub open spec fn spec_file_stem(info: BangumiInfo) -> Seq<char> {
    info.show_name@ + seq![' ', 'S'] + spec_pad2(info.season as int) + seq!['E'] + spec_pad2(
        info.episode as int,
    ) + spec_name_suffix(info.episode_name) + spec_name_suffix(info.display_name)
}

/// The season directory name: `Season {n}`.
pub open spec fn spec_season_folder(info: BangumiInfo) -> Seq<char> {
    seq!['S', 'e', 'a', 's', 'o', 'n', ' '] + spec_decimal(info.season as int)
}

/// The relative archive path of an episode file with extension `ext`
/// (without the dot): `{show}/Season {n}/{stem}.{ext}`.
pub open spec fn spec_gen_path(info: BangumiInfo, ext: Seq<char>) -> Seq<char> {
    info.show_name@ + seq!['/'] + spec_season_folder(info) + seq!['/'] + spec_file_stem(info)
        + seq!['.'] + ext
}

impl BangumiInfo {
    /// The show's directory name.
    pub fn folder_name(&self) -> (r: String)
        ensures
            r@ == self.show_name@,
    {
        self.show_name.clone()
    }

    /// The season directory name.
    pub fn sub_folder_name(&self) -> (r: String)
        ensures
            r@ == spec_season_folder(*self),
    {
        let mut out: Vec<char> = Vec::new();
        out.push('S');
        out.push('e');
        out.push('a');
        out.push('s');
        out.push('o');
        out.push('n');
        out.push(' ');
        assert(out@ =~= seq!['S', 'e', 'a', 's', 'o', 'n', ' ']);
        let num = decimal_u64(self.season);
        append_chars(&mut out, &num);
        string_from_chars(&out)
    }

    /// The episode's file name without its extension.
    pub fn file_name_without_extension(&self) -> (r: String)
        ensures
            r@ == spec_file_stem(*self),
    {
        let mut out = chars_vec(self.show_name.as_str());
        out.push(' ');
        out.push('S');
        let s = pad2_u64(self.season);
        append_chars(&mut out, &s);
        out.push('E');
        let e = pad2_u64(self.episode);
        append_chars(&mut out, &e);
        match &self.episode_name {
            Some(name) => {
                if !name.as_str().is_empty() {
                    out.push(' ');
                    append_str(&mut out, name.as_str());
                }
            },
            None => {},
        }
        match &self.display_name {
            Some(name) => {
                if !name.as_str().is_empty() {
                    out.push(' ');
                    append_str(&mut out, name.as_str());
                }
            },
            None => {},
        }
        assert(out@ =~= spec_file_stem(*self));
        string_from_chars(&out)
    }

    /// The episode's file name; `extension` carries its leading dot.
    pub fn file_name(&self, extension: &str) -> (r: String)
        requires
            extension@.len() > 0,
            extension@[0] == '.',
        ensures
            r@ == spec_file_stem(*self) + extension@,
    {
        let mut out = chars_vec(self.file_name_without_extension().as_str());
        append_str(&mut out, extension);
        string_from_chars(&out)
    }

    /// The relative archive path for this episode with extension `extension`
    /// (given without its dot).
    pub fn gen_path(&self, extension: &str) -> (r: String)
        ensures
            r@ == spec_gen_path(*self, extension@),
    {
        let mut out = chars_vec(self.show_name.as_str());
        out.push('/');
        append_str(&mut out, self.sub_folder_name().as_str());
        out.push('/');
        append_str(&mut out, self.file_name_without_extension().as_str());
        out.push('.');
        append_str(&mut out, extension);
        assert(out@ =~= spec_gen_path(*self, extension@));
        string_from_chars(&out)
    }
}

/// What `replace_path` returns: with an empty rule the path is unchanged;
/// otherwise the rule reads `src:dst` and, when the path begins with `src`,
/// that prefix is rewritten to `dst`.
pub open spec fn spec_replace_path(p: Seq<char>, rule: Seq<char>) -> Seq<char> {
    if rule.len() == 0 {
        p
    } else {
        let c = spec_find_char(rule, 0, ':');
        let src = rule.subrange(0, c);
        let dst = rule.subrange(c + 1, spec_find_char(rule, c + 1, ':'));
        if spec_starts_with(p, src) {
            dst + p.subrange(src.len() as int, p.len() as int)
        } else {
            p
        }
    }
}

/// Translate the downloader's view of a path to the renamer's view: the rule
/// `src:dst` rewrites the prefix `src` to `dst`, and the empty rule leaves
/// the path unchanged.
pub fn replace_path(path: &str, replace_rule: &str) -> (r: String)
    requires
        replace_rule@.len() == 0 || spec_find_char(replace_rule@, 0, ':') < replace_rule@.len(),
    ensures
        r@ == spec_replace_path(path@, replace_rule@),
{
    if replace_rule.is_empty() {
        return path.to_owned();
    }
    let rule = chars_vec(replace_rule);
    let p = chars_vec(path);
    let c = find_char(&rule, 0, ':');
    let src = crate::text::subrange_chars(&rule, 0, c);
    let d_end = find_char(&rule, c + 1, ':');
    let dst = crate::text::subrange_chars(&rule, c + 1, d_end);
    if has_prefix(&p, &src) {
        let mut out = dst;
        let rest = crate::text::subrange_chars(&p, src.len(), p.len());
        append_chars(&mut out, &rest);
        string_from_chars(&out)
    } else {
        path.to_owned()
    }
}

/// What the filesystem shows at a rename source path.
pub enum SrcNode {
    /// Nothing exists at the path.
    Missing,
    /// The path is a regular file.
    FileNode,
    /// The path is a directory with the given immediate children.
    DirNode { entries: Vec<DirChild> },
}

/// One immediate child of a source directory.
#[derive(Debug, Clone)]
pub struct DirChild {
    pub name: String,
    pub is_dir: bool,
}

/// The renamer's error kinds.
#[derive(Debug, Clone)]
pub enum RenameError {
    /// The source path does not exist.
    NotExist(String),
    /// A file to be linked has no extension.
    NoExtension(String),
    /// The source is neither a file nor a directory.
    UnsupportedType,
    /// The link operation itself failed.
    LinkFailed(String),
}

/// One hard link to make: `dst` becomes a link to `src`.
#[derive(Debug, Clone)]
pub struct LinkPlanItem {
    pub src: String,
    pub dst: String,
}

/// The extension of the file named by `p`: the characters after the last dot
/// of its final path component, provided that dot is not the component's
/// first character. Mirrors how std's `Path::extension` reads a name.
pub open spec fn spec_ext_of(p: Seq<char>) -> Option<Seq<char>> {
    let start = spec_rfind_char(p, '/') + 1;
    let dot = spec_rfind_char(p, '.');
    if dot > start {
        Some(p.subrange(dot + 1, p.len() as int))
    } else {
        None
    }
}

/// Extension of the file named by `p`, without its dot.
pub fn ext_of_path(p: &str) -> (r: Option<String>)
    ensures
        match r {
            Some(e) => spec_ext_of(p@) == Some(e@),
            None => spec_ext_of(p@) is None,
        },
{
    let v = chars_vec(p);
    proof {
        crate::text::lemma_rfind_char_props(v@, '/');
        crate::text::lemma_rfind_char_props(v@, '.');
    }
    let n = v.len();
    let sep = rfind_char(&v, '/');
    let mut start: usize = 0;
    if let Some(i) = sep {
        assert(i < n);
        start = i + 1;
    }
    match rfind_char(&v, '.') {
        Some(d) => {
            if d > start {
                let e = crate::text::subrange_chars(&v, d + 1, v.len());
                Some(string_from_chars(&e))
            } else {
                None
            }
        },
        None => None,
    }
}

/// The planned link for a single file: `src_path` hard-linked to
/// `{dst_root}/{gen_path(ext)}`, where `ext` is the file's own extension.
pub open spec fn spec_link_for(info: BangumiInfo, src_path: Seq<char>, dst_root: Seq<char>) -> Option<
    (Seq<char>, Seq<char>),
> {
    match spec_ext_of(src_path) {
        Some(ext) => Some((src_path, dst_root + seq!['/'] + spec_gen_path(info, ext))),
        None => None,
    }
}

/// `{dir}/{name}`.
pub open spec fn spec_join(dir: Seq<char>, name: Seq<char>) -> Seq<char> {
    dir + seq!['/'] + name
}

/// Join a directory path and a child name with a separator.
pub fn join_path(dir: &str, name: &str) -> (r: String)
    ensures
        r@ == spec_join(dir@, name@),
{
    let mut out = chars_vec(dir);
    out.push('/');
    append_str(&mut out, name);
    string_from_chars(&out)
}

/// The links planned for the regular files among a directory's children, in
/// order; `None` when some file among them has no extension.
pub open spec fn spec_dir_links(
    info: BangumiInfo,
    src_path: Seq<char>,
    dst_root: Seq<char>,
    entries: Seq<DirChild>,
) -> Option<Seq<(Seq<char>, Seq<char>)>>
    decreases entries.len(),
{
    if entries.len() == 0 {
        Some(Seq::empty())
    } else {
        let rest = spec_dir_links(info, src_path, dst_root, entries.drop_last());
        let e = entries.last();
        match rest {
            Some(links) => if e.is_dir {
                Some(links)
            } else {
                match spec_link_for(info, spec_join(src_path, e.name@), dst_root) {
                    Some(l) => Some(links.push(l)),
                    None => None,
                }
            },
            None => None,
        }
    }
}

/// The plan `rename` carries out, as pairs of source and target paths.
pub open spec fn spec_plan_views(plan: Seq<LinkPlanItem>) -> Seq<(Seq<char>, Seq<char>)> {
    plan.map(|i: int, item: LinkPlanItem| (item.src@, item.dst@))
}

impl BangumiInfo {
    /// Plan the hard links that archive the download at `src_path`, whose
    /// state the caller observed as `node`, under `dst_root`. A regular file
    /// yields one link named by its own extension; a directory yields one
    /// link per immediate regular-file child, sub-directories skipped; a
    /// missing source or a file without extension is an error.
    pub fn rename_plan(&self, src_path: &str, node: &SrcNode, dst_root: &str) -> (r: Result<
        Vec<LinkPlanItem>,
        RenameError,
    >)
        ensures
            match node {
                SrcNode::Missing => r is Err,
                SrcNode::FileNode => {
                    match spec_link_for(*self, src_path@, dst_root@) {
                        Some(l) => r is Ok && spec_plan_views(r->Ok_0@) =~= seq![l],
                        None => r is Err,
                    }
                },
                SrcNode::DirNode { entries } => {
                    match spec_dir_links(*self, src_path@, dst_root@, entries@) {
                        Some(links) => r is Ok && spec_plan_views(r->Ok_0@) =~= links,
                        None => r is Err,
                    }
                },
            },
    {
        match node {
            SrcNode::Missing => Err(RenameError::NotExist(src_path.to_owned())),
            SrcNode::FileNode => {
                match ext_of_path(src_path) {
                    Some(ext) => {
                        let rel = self.gen_path(ext.as_str());
                        let dst = join_path(dst_root, rel.as_str());
                        let mut plan: Vec<LinkPlanItem> = Vec::new();
                        plan.push(LinkPlanItem { src: src_path.to_owned(), dst });
                        Ok(plan)
                    },
                    None => Err(RenameError::NoExtension(src_path.to_owned())),
                }
            },
            SrcNode::DirNode { entries } => {
                let mut plan: Vec<LinkPlanItem> = Vec::new();
                let mut j: usize = 0;
                proof {
                    assert(entries@.subrange(0, 0) =~= Seq::<DirChild>::empty());
                    assert(spec_plan_views(plan@) =~= Seq::<(Seq<char>, Seq<char>)>::empty());
                }
                #[verifier::loop_isolation(false)]
                while j < entries.len()
                    invariant
                        j <= entries@.len(),
                        spec_dir_links(*self, src_path@, dst_root@, entries@.subrange(0, j as int))
                            == Some(spec_plan_views(plan@)),
                    decreases entries@.len() - j,
                {
                    let ghost pre = entries@.subrange(0, j as int);
                    let ghost cur = entries@.subrange(0, j + 1 as int);
                    assert(cur.drop_last() == pre);
                    let e = &entries[j];
                    if !e.is_dir {
                        let child = join_path(src_path, e.name.as_str());
                        match ext_of_path(child.as_str()) {
                            Some(ext) => {
                                let rel = self.gen_path(ext.as_str());
                                let dst = join_path(dst_root, rel.as_str());
                                plan.push(LinkPlanItem { src: child, dst });
                                assert(spec_plan_views(plan@) =~= spec_plan_views(
                                    plan@.drop_last(),
                                ).push((plan@.last().src@, plan@.last().dst@)));
                            },
                            None => {
                                proof {
                                    assert(spec_dir_links(*self, src_path@, dst_root@, cur)
                                        is None);
                                    lemma_dir_links_none_prefix(
                                        *self,
                                        src_path@,
                                        dst_root@,
                                        entries@,
                                        j + 1,
                                    );
                                }
                                return Err(RenameError::NoExtension(child));
                            },
                        }
                    }
                    j = j + 1;
                }
                assert(entries@.subrange(0, entries@.len() as int) == entries@);
                Ok(plan)
            },
        }
    }
}

/// How executing a plan changes the target filesystem, modelled as a map
/// from target path to linked source: each link is made only when its target
/// does not yet exist.
pub open spec fn spec_apply_links(
    fs: Map<Seq<char>, Seq<char>>,
    plan: Seq<(Seq<char>, Seq<char>)>,
) -> Map<Seq<char>, Seq<char>>
    decreases plan.len(),
{
    if plan.len() == 0 {
        fs
    } else {
        let step = if fs.dom().contains(plan[0].1) {
            fs
        } else {
            fs.insert(plan[0].1, plan[0].0)
        };
        spec_apply_links(step, plan.drop_first())
    }
}

proof fn lemma_apply_links_grows(fs: Map<Seq<char>, Seq<char>>, plan: Seq<(Seq<char>, Seq<char>)>)
    ensures
        forall|k: int|
            0 <= k < plan.len() ==> spec_apply_links(fs, plan).dom().contains(#[trigger] plan[k].1),
        forall|d: Seq<char>|
            fs.dom().contains(d) ==> #[trigger] spec_apply_links(fs, plan).dom().contains(d),
    decreases plan.len(),
{
    if plan.len() > 0 {
        let step = if fs.dom().contains(plan[0].1) {
            fs
        } else {
            fs.insert(plan[0].1, plan[0].0)
        };
        lemma_apply_links_grows(step, plan.drop_first());
        assert(spec_apply_links(fs, plan) == spec_apply_links(step, plan.drop_first()));
        assert forall|d: Seq<char>| fs.dom().contains(d) implies #[trigger] spec_apply_links(
            fs,
            plan,
        ).dom().contains(d) by {
            assert(step.dom().contains(d));
        }
        assert forall|k: int| 0 <= k < plan.len() implies spec_apply_links(
            fs,
            plan,
        ).dom().contains(#[trigger] plan[k].1) by {
            if k > 0 {
                assert(plan.drop_first()[k - 1] == plan[k]);
            } else {
                assert(step.dom().contains(plan[0].1));
            }
        }
    }
}

proof fn lemma_dir_links_none_prefix(
    info: BangumiInfo,
    src_path: Seq<char>,
    dst_root: Seq<char>,
    entries: Seq<DirChild>,
    i: int,
)
    requires
        0 <= i <= entries.len(),
        spec_dir_links(info, src_path, dst_root, entries.subrange(0, i)) is None,
    ensures
        spec_dir_links(info, src_path, dst_root, entries) is None,
    decreases entries.len() - i,
{
    if i < entries.len() {
        assert(entries.subrange(0, i + 1).drop_last() == entries.subrange(0, i));
        lemma_dir_links_none_prefix(info, src_path, dst_root, entries, i + 1);
    } else {
        assert(entries.subrange(0, i) == entries);
    }
}

proof fn lemma_apply_links_noop(fs: Map<Seq<char>, Seq<char>>, plan: Seq<(Seq<char>, Seq<char>)>)
    requires
        forall|k: int| 0 <= k < plan.len() ==> fs.dom().contains(#[trigger] plan[k].1),
    ensures
        spec_apply_links(fs, plan) == fs,
    decreases plan.len(),
{
    if plan.len() > 0 {
        assert forall|k: int| 0 <= k < plan.drop_first().len() implies fs.dom().contains(
            #[trigger] plan.drop_first()[k].1,
        ) by {
            assert(plan.drop_first()[k] == plan[k + 1]);
        }
        lemma_apply_links_noop(fs, plan.drop_first());
    }
}

/// Renaming is idempotent: running one rename plan a second time changes
/// nothing, because every target the plan creates already exists after the
/// first run and an existing target is left untouched.
pub proof fn lemma_rename_idempotent(
    fs: Map<Seq<char>, Seq<char>>,
    plan: Seq<(Seq<char>, Seq<char>)>,
)
    ensures
        spec_apply_links(spec_apply_links(fs, plan), plan) == spec_apply_links(fs, plan),
{
    lemma_apply_links_grows(fs, plan);
    lemma_apply_links_noop(spec_apply_links(fs, plan), plan);
}

} // verus!
