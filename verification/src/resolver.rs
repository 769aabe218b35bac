//! The dependency resolver as an event/action machine.  The caller reads
//! files and probes directories; the resolver decides everything else:
//! what to ask next, what each answer means, which node to record where,
//! and which answers abort the walk.

use vstd::prelude::*;
use vstd::string::StrSliceExecFns;
use vstd::string::StringExecFns;

use crate::binary_file::BinaryFile;
use crate::binary_file::BinaryFileView;
use crate::elf::view_of_strings;
use crate::elf::ElfMeta;
use crate::elf::ElfMetaView;
use crate::errors::AnalyzeError;
use crate::tree::depth_of;
use crate::tree::lemma_depth_push;
use crate::tree::node_id_index;
use crate::tree::node_id_tag;
use crate::tree::tree_nodes;
use crate::tree::tree_pristine;
use crate::tree::tree_tag;
use crate::tree::wf_nodes;
use crate::tree::NodeModel;

verus! {

/// Upper bound on the number of nodes along any root-to-leaf path.  The
/// interpreter guard breaks the one self-reference cycle a real loader
/// produces; this cap additionally bounds any pathological cycle among
/// ordinary libraries, which the guard alone would not.
pub const MAX_DEPTH: usize = 64;

/// What the resolver asks its driver to do next.
pub enum Action {
    /// Read the file at `path` and extract its metadata.
    ReadFile { path: String },
    /// Report, for each path, whether a regular file exists there.
    ProbeDirs { paths: Vec<String> },
    /// The walk is complete; the tree can be taken.
    Done,
}

/// Mathematical value of an [`Action`].
#[verifier::ext_equal]
pub ghost enum ActionView {
    ReadFile { path: Seq<char> },
    ProbeDirs { paths: Seq<Seq<char>> },
    Done,
}

impl View for Action {
    type V = ActionView;

    open spec fn view(&self) -> ActionView {
        match self {
            Action::ReadFile { path } => ActionView::ReadFile { path: path@ },
            Action::ProbeDirs { paths } => ActionView::ProbeDirs {
                paths: view_of_strings(paths@),
            },
            Action::Done => ActionView::Done,
        }
    }
}

/// The driver's answer to a [`Action::ReadFile`] request.
pub enum FileOutcome {
    /// The file could not be opened or read.
    Unreadable,
    /// The file was read but its bytes are not a well-formed binary.
    Malformed,
    /// The file was read and its metadata extracted.
    Binary { meta: ElfMeta },
}

/// Mathematical value of a [`FileOutcome`].
#[verifier::ext_equal]
pub ghost enum FileOutcomeView {
    Unreadable,
    Malformed,
    Binary { meta: ElfMetaView },
}

impl View for FileOutcome {
    type V = FileOutcomeView;

    open spec fn view(&self) -> FileOutcomeView {
        match self {
            FileOutcome::Unreadable => FileOutcomeView::Unreadable,
            FileOutcome::Malformed => FileOutcomeView::Malformed,
            FileOutcome::Binary { meta } => FileOutcomeView::Binary { meta: meta@ },
        }
    }
}

/// The driver's answer to the resolver's last request.
pub enum Event {
    /// Answers [`Action::ReadFile`].
    File { outcome: FileOutcome },
    /// Answers [`Action::ProbeDirs`], one flag per requested path.
    Probed { found: Vec<bool> },
}

/// Mathematical value of an [`Event`].
#[verifier::ext_equal]
pub ghost enum EventView {
    File { outcome: FileOutcomeView },
    Probed { found: Seq<bool> },
}

impl View for Event {
    type V = EventView;

    open spec fn view(&self) -> EventView {
        match self {
            Event::File { outcome } => EventView::File { outcome: outcome@ },
            Event::Probed { found } => EventView::Probed { found: found@ },
        }
    }
}

/// One pending resolution: a name declared by the node `parent`, to be
/// looked up in the search directories.  `depth` is the depth the new child
/// will have (the root having depth 1); `expand` says whether, once the name
/// resolves to a file, that file's own dependencies are walked in turn.
pub struct WorkItem {
    pub parent: id_tree::NodeId,
    pub name: String,
    pub depth: usize,
    pub expand: bool,
}

/// Mathematical value of a [`WorkItem`], the parent as its arena index.
#[verifier::ext_equal]
pub ghost struct WorkItemView {
    pub parent: int,
    pub name: Seq<char>,
    pub depth: int,
    pub expand: bool,
}

impl View for WorkItem {
    type V = WorkItemView;

    open spec fn view(&self) -> WorkItemView {
        WorkItemView {
            parent: node_id_index(self.parent),
            name: self.name@,
            depth: self.depth as int,
            expand: self.expand,
        }
    }
}

/// What the resolver is waiting to hear from its driver.
pub enum Waiting {
    /// The root file's metadata.
    Root { path: String },
    /// The existence flags for one declared name's candidate paths.
    Probe { item: WorkItem },
    /// The metadata of a resolved dependency that is to be expanded.
    File { node: id_tree::NodeId, depth: usize },
    /// Nothing: the walk is over.
    Finished,
}

/// Mathematical value of a [`Waiting`], node identifiers as arena indices.
#[verifier::ext_equal]
pub ghost enum WaitingView {
    Root { path: Seq<char> },
    Probe { item: WorkItemView },
    File { node: int, depth: int },
    Finished,
}

impl View for Waiting {
    type V = WaitingView;

    open spec fn view(&self) -> WaitingView {
        match self {
            Waiting::Root { path } => WaitingView::Root { path: path@ },
            Waiting::Probe { item } => WaitingView::Probe { item: item@ },
            Waiting::File { node, depth } => WaitingView::File {
                node: node_id_index(*node),
                depth: *depth as int,
            },
            Waiting::Finished => WaitingView::Finished,
        }
    }
}

/// The suffix of `p` after its last `/`; `p` itself when it has none.  This
/// is how the interpreter path `/lib64/ld-linux-x86-64.so.2` yields the file
/// name `ld-linux-x86-64.so.2` that declared dependencies are compared with.
pub open spec fn base_name(p: Seq<char>) -> Seq<char>
    decreases p.len(),
{
    if p.len() == 0 {
        p
    } else if p.last() == '/' {
        Seq::empty()
    } else {
        base_name(p.drop_last()).push(p.last())
    }
}

/// The interpreter file name of a root that declared `interp`: the empty
/// sequence when it declared none (then no declared name matches it).
pub open spec fn interp_base(interp: Option<Seq<char>>) -> Seq<char> {
    match interp {
        Option::Some(p) => base_name(p),
        Option::None => Seq::empty(),
    }
}

/// First directory (at or after position `i`) whose existence flag is set:
/// the resolved path is that directory with the name appended.
pub open spec fn locate_from(
    dirs: Seq<Seq<char>>,
    name: Seq<char>,
    found: Seq<bool>,
    i: int,
) -> Option<Seq<char>>
    decreases dirs.len() - i,
{
    if !(0 <= i < dirs.len()) {
        Option::None
    } else if i < found.len() && found[i] {
        Option::Some(dirs[i] + name)
    } else {
        locate_from(dirs, name, found, i + 1)
    }
}

/// Where a declared name resolves, given one existence flag per search
/// directory: the first hit in directory order, or nowhere.
pub open spec fn locate(dirs: Seq<Seq<char>>, name: Seq<char>, found: Seq<bool>) -> Option<
    Seq<char>,
> {
    locate_from(dirs, name, found, 0)
}

/// The node recorded for a declared name once its probe is answered: the
/// declared name itself, and the resolved path or `None`.
pub open spec fn located_file(
    dirs: Seq<Seq<char>>,
    name: Seq<char>,
    found: Seq<bool>,
) -> BinaryFileView {
    BinaryFileView {
        name: name,
        real_path: locate(dirs, name, found),
        interpreter: Option::None,
        is_root: false,
        is_executable: false,
    }
}

/// The root node built from the root file's metadata.
pub open spec fn root_node(path: Seq<char>, meta: ElfMetaView) -> NodeModel {
    NodeModel {
        data: BinaryFileView {
            name: path,
            real_path: Option::None,
            interpreter: meta.interpreter,
            is_root: true,
            is_executable: meta.is_executable,
        },
        parent: -1,
    }
}

/// The work item for one declared name.  It is expanded only if it is not
/// guarded as the interpreter's own file name and its depth leaves room for
/// children under the depth cap.
pub open spec fn item_of(
    name: Seq<char>,
    parent: int,
    depth: int,
    interp: Seq<char>,
    guard: bool,
) -> WorkItemView {
    WorkItemView {
        parent: parent,
        name: name,
        depth: depth,
        expand: (!guard || name != interp) && depth < MAX_DEPTH as int,
    }
}

/// The items pushed for the declared names `libs[k..]`, last name first, so
/// that popping handles the names in declaration order.
pub open spec fn items_desc(
    libs: Seq<Seq<char>>,
    k: int,
    parent: int,
    depth: int,
    interp: Seq<char>,
    guard: bool,
) -> Seq<WorkItemView>
    decreases libs.len() - k,
{
    if 0 <= k < libs.len() {
        items_desc(libs, k + 1, parent, depth, interp, guard).push(
            item_of(libs[k], parent, depth, interp, guard),
        )
    } else {
        Seq::empty()
    }
}

/// The candidate paths probed for one declared name: each search directory
/// with the name appended, in directory order.
pub open spec fn probe_paths(dirs: Seq<Seq<char>>, name: Seq<char>) -> Seq<Seq<char>> {
    dirs.map_values(|d: Seq<char>| d + name)
}

/// Mathematical state of one analysis in flight.
#[verifier::ext_equal]
pub ghost struct AnalysisView {
    pub dirs: Seq<Seq<char>>,
    pub interp_file: Seq<char>,
    pub nodes: Seq<NodeModel>,
    pub stack: Seq<WorkItemView>,
    pub waiting: WaitingView,
}

/// `v` with the walk marked over.
pub open spec fn with_finished(v: AnalysisView) -> AnalysisView {
    AnalysisView { waiting: WaitingView::Finished, ..v }
}

/// Moves to the next pending name, or ends the walk: the resolver pops the
/// youngest pending item (hence depth-first) and asks for its probes.
pub open spec fn spec_advance(v: AnalysisView) -> (AnalysisView, ActionView) {
    if v.stack.len() == 0 {
        (with_finished(v), ActionView::Done)
    } else {
        let item = v.stack.last();
        (
            AnalysisView {
                stack: v.stack.drop_last(),
                waiting: WaitingView::Probe { item },
                ..v
            },
            ActionView::ProbeDirs { paths: probe_paths(v.dirs, item.name) },
        )
    }
}

/// The whole resolver, one event at a time: what the new state is and what
/// the driver is asked next, or which error aborts the walk.
pub open spec fn spec_step(v: AnalysisView, ev: EventView) -> (AnalysisView, Result<
    ActionView,
    AnalyzeError,
>) {
    match v.waiting {
        WaitingView::Root { path } => match ev {
            EventView::File { outcome } => match outcome {
                FileOutcomeView::Unreadable => (with_finished(v), Result::Err(AnalyzeError::IoError)),
                FileOutcomeView::Malformed => (
                    with_finished(v),
                    Result::Err(AnalyzeError::ParseError),
                ),
                FileOutcomeView::Binary { meta } => {
                    let interp = interp_base(meta.interpreter);
                    let v2 = AnalysisView {
                        interp_file: interp,
                        nodes: seq![root_node(path, meta)],
                        stack: items_desc(meta.libraries, 0, 0, 2, interp, false),
                        ..v
                    };
                    let (v3, a) = spec_advance(v2);
                    (v3, Result::Ok(a))
                },
            },
            _ => (v, Result::Ok(ActionView::Done)),
        },
        WaitingView::Probe { item } => match ev {
            EventView::Probed { found } => {
                let data = located_file(v.dirs, item.name, found);
                let v2 = AnalysisView {
                    nodes: v.nodes.push(NodeModel { data: data, parent: item.parent }),
                    ..v
                };
                if data.real_path is Some && item.expand {
                    (
                        AnalysisView {
                            waiting: WaitingView::File {
                                node: v.nodes.len() as int,
                                depth: item.depth,
                            },
                            ..v2
                        },
                        Result::Ok(ActionView::ReadFile { path: data.real_path.unwrap() }),
                    )
                } else {
                    let (v3, a) = spec_advance(v2);
                    (v3, Result::Ok(a))
                }
            },
            _ => (v, Result::Ok(ActionView::Done)),
        },
        WaitingView::File { node, depth } => match ev {
            EventView::File { outcome } => match outcome {
                FileOutcomeView::Unreadable => (with_finished(v), Result::Err(AnalyzeError::IoError)),
                FileOutcomeView::Malformed => (
                    with_finished(v),
                    Result::Err(AnalyzeError::ParseError),
                ),
                FileOutcomeView::Binary { meta } => {
                    let v2 = AnalysisView {
                        stack: v.stack + items_desc(
                            meta.libraries,
                            0,
                            node,
                            depth + 1,
                            v.interp_file,
                            true,
                        ),
                        ..v
                    };
                    let (v3, a) = spec_advance(v2);
                    (v3, Result::Ok(a))
                },
            },
            _ => (v, Result::Ok(ActionView::Done)),
        },
        WaitingView::Finished => (v, Result::Ok(ActionView::Done)),
    }
}

/// Which events answer what the resolver is waiting for.
pub open spec fn accepts(w: WaitingView, ev: EventView) -> bool {
    match w {
        WaitingView::Root { .. } => ev is File,
        WaitingView::Probe { .. } => ev is Probed,
        WaitingView::File { .. } => ev is File,
        WaitingView::Finished => true,
    }
}

/// Mathematical value of a step's result.
pub open spec fn res_view(r: Result<Action, AnalyzeError>) -> Result<ActionView, AnalyzeError> {
    match r {
        Result::Ok(a) => Result::Ok(a@),
        Result::Err(e) => Result::Err(e),
    }
}

/// Mathematical value of a pending-item stack.
pub open spec fn stack_view(s: Seq<WorkItem>) -> Seq<WorkItemView> {
    s.map_values(|it: WorkItem| it@)
}

/// A suffix free of `/`, fenced off by a `/` or the string's start, is the
/// base name.
proof fn lemma_base_name_suffix(p: Seq<char>, cut: int)
    requires
        0 <= cut <= p.len(),
        cut > 0 ==> p[cut - 1] == '/',
        forall|j: int| cut <= j < p.len() ==> p[j] != '/',
    ensures
        base_name(p) == p.subrange(cut, p.len() as int),
    decreases p.len(),
{
    if p.len() == 0 {
        assert(base_name(p) =~= p.subrange(cut, p.len() as int));
    } else if cut == p.len() {
        if p.last() == '/' {
            assert(base_name(p) =~= p.subrange(cut, p.len() as int));
        } else {
            let q = p.drop_last();
            lemma_base_name_suffix(q, cut - 1);
            assert(q.subrange(cut - 1, q.len() as int) =~= Seq::<char>::empty());
            assert(base_name(p) =~= p.subrange(cut, p.len() as int));
        }
    } else {
        let q = p.drop_last();
        lemma_base_name_suffix(q, cut);
        assert(base_name(p) =~= p.subrange(cut, p.len() as int));
    }
}

/// The suffix of `p` after its last `/`, or `p` itself when it has none.
fn base_file_name(p: &String) -> (r: String)
    ensures
        r@ == base_name(p@),
{
    let s = p.as_str();
    let n = s.unicode_len();
    let mut cut: usize = 0;
    let mut i: usize = 0;
    while i < n
        invariant
            i <= n,
            n == s@.len(),
            s@ == p@,
            0 <= cut <= i,
            cut > 0 ==> p@[cut - 1] == '/',
            forall|j: int| cut <= j < i ==> p@[j] != '/',
        decreases n - i,
    {
        if s.get_char(i) == '/' {
            cut = i + 1;
        }
        i += 1;
    }
    proof {
        lemma_base_name_suffix(p@, cut as int);
    }
    s.substring_char(cut, n).to_owned()
}

/// The declared name looked up against each directory's existence flag:
/// the node to record for it.
fn locate_in_dirs(dirs: &Vec<String>, name: &String, found: &Vec<bool>) -> (r: BinaryFile)
    ensures
        r@ == located_file(view_of_strings(dirs@), name@, found@),
{
    let ghost dv = view_of_strings(dirs@);
    let mut i: usize = 0;
    while i < dirs.len()
        invariant
            0 <= i <= dirs@.len(),
            dv == view_of_strings(dirs@),
            locate(dv, name@, found@) == locate_from(dv, name@, found@, i as int),
        decreases dirs@.len() - i,
    {
        if i < found.len() && found[i] {
            let path = dirs[i].clone().concat(name.as_str());
            return BinaryFile {
                name: name.clone(),
                real_path: Some(path),
                interpreter: None,
                is_root: false,
                is_executable: false,
            };
        }
        i += 1;
    }
    BinaryFile {
        name: name.clone(),
        real_path: None,
        interpreter: None,
        is_root: false,
        is_executable: false,
    }
}

/// The candidate paths for one declared name: every search directory with
/// the name appended, in directory order.
fn make_probe_paths(dirs: &Vec<String>, name: &String) -> (r: Vec<String>)
    ensures
        view_of_strings(r@) == probe_paths(view_of_strings(dirs@), name@),
{
    let mut out: Vec<String> = Vec::new();
    let mut i: usize = 0;
    while i < dirs.len()
        invariant
            0 <= i <= dirs@.len(),
            out@.len() == i,
            forall|j: int| 0 <= j < i ==> #[trigger] out@[j]@ == dirs@[j]@ + name@,
        decreases dirs@.len() - i,
    {
        out.push(dirs[i].clone().concat(name.as_str()));
        i += 1;
    }
    proof {
        assert(view_of_strings(out@) =~= probe_paths(view_of_strings(dirs@), name@));
    }
    out
}

/// Pushes one pending item per declared name, last declared first, so the
/// names are later handled in declaration order.
fn push_items(
    stack: &mut Vec<WorkItem>,
    libs: Vec<String>,
    parent: &id_tree::NodeId,
    depth: usize,
    guard: bool,
    interp: &String,
)
    ensures
        stack_view(final(stack)@) == stack_view(old(stack)@) + items_desc(
            view_of_strings(libs@),
            0,
            node_id_index(*parent),
            depth as int,
            interp@,
            guard,
        ),
        forall|i: int|
            0 <= i < old(stack)@.len() ==> #[trigger] final(stack)@[i] == old(stack)@[i],
        forall|i: int|
            old(stack)@.len() <= i < final(stack)@.len()
                ==> (#[trigger] final(stack)@[i]).parent == *parent,
{
    let ghost lv = view_of_strings(libs@);
    let ghost p = node_id_index(*parent);
    let mut k: usize = libs.len();
    while k > 0
        invariant
            0 <= k <= libs@.len(),
            lv == view_of_strings(libs@),
            p == node_id_index(*parent),
            stack_view(stack@) =~= stack_view(old(stack)@) + items_desc(
                lv,
                k as int,
                p,
                depth as int,
                interp@,
                guard,
            ),
            forall|i: int| 0 <= i < old(stack)@.len() ==> #[trigger] stack@[i] == old(stack)@[i],
            forall|i: int|
                old(stack)@.len() <= i < stack@.len() ==> #[trigger] stack@[i].parent == *parent,
        decreases k,
    {
        k = k - 1;
        let name = libs[k].clone();
        let same = name == *interp;
        let expand = (!guard || !same) && depth < MAX_DEPTH;
        let it = WorkItem { parent: parent.clone(), name, depth, expand };
        let ghost s0 = stack@;
        proof {
            assert(it@ == item_of(lv[k as int], p, depth as int, interp@, guard));
            assert(items_desc(lv, k as int, p, depth as int, interp@, guard) == items_desc(
                lv,
                k as int + 1,
                p,
                depth as int,
                interp@,
                guard,
            ).push(item_of(lv[k as int], p, depth as int, interp@, guard)));
        }
        stack.push(it);
        proof {
            assert(stack@ == s0.push(it));
            assert(stack_view(stack@) =~= stack_view(s0).push(it@));
            assert(stack_view(stack@) =~= stack_view(old(stack)@) + items_desc(
                lv,
                k as int,
                p,
                depth as int,
                interp@,
                guard,
            ));
        }
    }
    proof {
        assert(stack_view(stack@) == stack_view(old(stack)@) + items_desc(
            lv,
            0,
            p,
            depth as int,
            interp@,
            guard,
        ));
    }
}

/// The fixed ordered list of directories a declared dependency name is
/// searched in.  The list is deliberately static: runtime environment
/// overrides and per-binary embedded search-path hints are not honored.
pub open spec fn default_search_dirs() -> Seq<Seq<char>> {
    seq![
        "/lib64/"@,
        "/lib/"@,
        "/lib/x86_64-linux-gnu/"@,
        "/usr/lib64/"@,
        "/usr/lib/"@,
        "/usr/lib/x86_64-linux-gnu/"@,
    ]
}

/// Starts dependency walks: holds the fixed search-directory list every
/// declared name is resolved against.
pub struct DependencyAnalyzer {
    pub default_ld_paths: Vec<String>,
}

/// The initial state of a walk rooted at `path`: nothing read yet, the root
/// file's metadata awaited.
pub open spec fn start_view(dirs: Seq<Seq<char>>, path: Seq<char>) -> AnalysisView {
    AnalysisView {
        dirs: dirs,
        interp_file: Seq::empty(),
        nodes: Seq::empty(),
        stack: Seq::empty(),
        waiting: WaitingView::Root { path },
    }
}

impl DependencyAnalyzer {
    /// An analyzer over the standard search directories.
    pub fn new() -> (r: DependencyAnalyzer)
        ensures
            view_of_strings(r.default_ld_paths@) == default_search_dirs(),
    {
        let mut dirs: Vec<String> = Vec::new();
        dirs.push("/lib64/".to_owned());
        dirs.push("/lib/".to_owned());
        dirs.push("/lib/x86_64-linux-gnu/".to_owned());
        dirs.push("/usr/lib64/".to_owned());
        dirs.push("/usr/lib/".to_owned());
        dirs.push("/usr/lib/x86_64-linux-gnu/".to_owned());
        proof {
            assert(view_of_strings(dirs@) =~= default_search_dirs());
        }
        DependencyAnalyzer { default_ld_paths: dirs }
    }

    /// Resolves one declared name against the search directories, given one
    /// existence flag per directory: the first hit wins, and a name with no
    /// hit is recorded unresolved, which is not an error.
    pub fn find_library(&self, name: &String, found: &Vec<bool>) -> (r: BinaryFile)
        ensures
            r@ == located_file(view_of_strings(self.default_ld_paths@), name@, found@),
    {
        locate_in_dirs(&self.default_ld_paths, name, found)
    }

    /// Opens a walk rooted at the file at `path`: the state to feed events
    /// to, and the first request (read the root file).
    pub fn start(&self, path: String) -> (r: (Analysis, Action))
        ensures
            r.0.inv(),
            r.0@ == start_view(view_of_strings(self.default_ld_paths@), path@),
            r.1@ == (ActionView::ReadFile { path: path@ }),
    {
        let mut dirs: Vec<String> = Vec::new();
        let mut i: usize = 0;
        while i < self.default_ld_paths.len()
            invariant
                0 <= i <= self.default_ld_paths@.len(),
                dirs@.len() == i,
                forall|j: int| 0 <= j < i ==> #[trigger] dirs@[j] == self.default_ld_paths@[j],
            decreases self.default_ld_paths@.len() - i,
        {
            dirs.push(self.default_ld_paths[i].clone());
            i += 1;
        }
        let st = Analysis {
            dirs,
            interp_file: String::new(),
            tree: crate::tree::tree_new(),
            stack: Vec::new(),
            waiting: Waiting::Root { path: path.clone() },
        };
        proof {
            assert(st.dirs@ =~= self.default_ld_paths@);
            assert(tree_nodes(st.tree) =~= Seq::<NodeModel>::empty());
            assert(stack_view(st.stack@) =~= Seq::<WorkItemView>::empty());
            assert(st@ =~~= start_view(view_of_strings(self.default_ld_paths@), path@));
        }
        (st, Action::ReadFile { path })
    }
}

/// What `spec_advance` yields does not depend on what was awaited: only the
/// stack, the directories and the carried state matter.
proof fn lemma_advance_same(v1: AnalysisView, v2: AnalysisView)
    requires
        v1.dirs == v2.dirs,
        v1.interp_file == v2.interp_file,
        v1.nodes == v2.nodes,
        v1.stack == v2.stack,
    ensures
        spec_advance(v1).0 == spec_advance(v2).0,
        spec_advance(v1).1 == spec_advance(v2).1,
{
    assert(spec_advance(v1).0 =~~= spec_advance(v2).0);
    assert(spec_advance(v1).1 =~~= spec_advance(v2).1);
}

/// Shape of the pushed items: one per declared name, each carrying the same
/// parent, depth and guard, the `j`-th from the top being the `j`-th name.
pub proof fn lemma_items_desc_index(
    libs: Seq<Seq<char>>,
    k: int,
    parent: int,
    depth: int,
    interp: Seq<char>,
    guard: bool,
)
    requires
        0 <= k <= libs.len(),
    ensures
        items_desc(libs, k, parent, depth, interp, guard).len() == libs.len() - k,
        forall|j: int|
            0 <= j < libs.len() - k ==> #[trigger] items_desc(libs, k, parent, depth, interp, guard)[j]
                == item_of(libs[libs.len() - 1 - j], parent, depth, interp, guard),
    decreases libs.len() - k,
{
    if k < libs.len() {
        lemma_items_desc_index(libs, k + 1, parent, depth, interp, guard);
    }
}

/// Payload invariants of a finished or growing arena: the root (and only
/// the root) is marked as root and may carry an interpreter, and every
/// child hangs under the root or under a node that resolved to a file —
/// an unresolved name is always a leaf.
pub open spec fn data_wf(nodes: Seq<NodeModel>) -> bool {
    &&& (nodes.len() > 0 ==> nodes[0].data.is_root)
    &&& (forall|i: int|
        0 < i < nodes.len() ==> !(#[trigger] nodes[i]).data.is_root && nodes[i].data.interpreter
            is None)
    &&& (forall|i: int|
        0 < i < nodes.len() ==> ((#[trigger] nodes[i]).parent == 0 || nodes[nodes[i].parent].data.real_path
            is Some))
}

/// Every node sits within the depth cap.
pub open spec fn depth_bounded(nodes: Seq<NodeModel>) -> bool {
    forall|i: int| 0 <= i < nodes.len() ==> #[trigger] depth_of(nodes, i) <= MAX_DEPTH as int
}

/// One dependency walk in flight: the tree built so far, the pending names,
/// and what the driver was asked last.
pub struct Analysis {
    pub dirs: Vec<String>,
    pub interp_file: String,
    pub tree: id_tree::Tree<BinaryFile>,
    pub stack: Vec<WorkItem>,
    pub waiting: Waiting,
}

impl View for Analysis {
    type V = AnalysisView;

    open spec fn view(&self) -> AnalysisView {
        AnalysisView {
            dirs: view_of_strings(self.dirs@),
            interp_file: self.interp_file@,
            nodes: tree_nodes(self.tree),
            stack: stack_view(self.stack@),
            waiting: self.waiting@,
        }
    }
}

impl Analysis {
    /// A pending item addresses a real node of this tree — the root or a
    /// resolved one — and its depth bookkeeping is consistent.
    pub open spec fn item_ok(&self, it: WorkItem) -> bool {
        &&& node_id_tag(it.parent) == tree_tag(self.tree)
        &&& 0 <= node_id_index(it.parent) < tree_nodes(self.tree).len()
        &&& (node_id_index(it.parent) == 0 || tree_nodes(self.tree)[node_id_index(
            it.parent,
        )].data.real_path is Some)
        &&& 1 <= it.depth <= MAX_DEPTH
        &&& it.depth as int == depth_of(tree_nodes(self.tree), node_id_index(it.parent)) + 1
        &&& (it.expand ==> (it.depth as int) < MAX_DEPTH as int)
    }

    /// The state invariant, less the clause about what is awaited.
    pub open spec fn core_inv(&self) -> bool {
        &&& tree_pristine(self.tree)
        &&& wf_nodes(tree_nodes(self.tree))
        &&& data_wf(tree_nodes(self.tree))
        &&& depth_bounded(tree_nodes(self.tree))
        &&& (forall|i: int|
            0 <= i < self.stack@.len() ==> self.item_ok(#[trigger] self.stack@[i]))
    }

    /// What must hold of the awaited answer's context.
    pub open spec fn waiting_inv(&self) -> bool {
        match self.waiting {
            Waiting::Root { .. } => tree_nodes(self.tree).len() == 0 && self.stack@.len() == 0,
            Waiting::Probe { item } => self.item_ok(item),
            Waiting::File { node, depth } => {
                &&& node_id_tag(node) == tree_tag(self.tree)
                &&& 0 <= node_id_index(node) < tree_nodes(self.tree).len()
                &&& tree_nodes(self.tree)[node_id_index(node)].data.real_path is Some
                &&& 1 <= depth < MAX_DEPTH
                &&& depth as int == depth_of(tree_nodes(self.tree), node_id_index(node))
            },
            Waiting::Finished => true,
        }
    }

    /// The state invariant: established by `start`, preserved by `step`.
    pub open spec fn inv(&self) -> bool {
        self.core_inv() && self.waiting_inv()
    }

    /// Whether the walk is over and the tree complete.
    pub fn is_finished(&self) -> (r: bool)
        ensures
            r == (self@.waiting is Finished),
    {
        match self.waiting {
            Waiting::Finished => true,
            _ => false,
        }
    }

    /// Feeds the resolver the answer to its last request and returns the
    /// next one, or the error that aborts the walk.  The whole behaviour is
    /// [`spec_step`]: which node is recorded with which payload, which names
    /// become pending, and which answers are fatal.
    pub fn step(&mut self, ev: Event) -> (r: Result<Action, AnalyzeError>)
        requires
            old(self).inv(),
            accepts(old(self)@.waiting, ev@),
        ensures
            final(self).inv(),
            final(self)@ == spec_step(old(self)@, ev@).0,
            res_view(r) == spec_step(old(self)@, ev@).1,
    {
        let ghost v0 = self@;
        let ghost evv = ev@;
        let mut w = Waiting::Finished;
        core::mem::swap(&mut w, &mut self.waiting);
        match w {
            Waiting::Root { path } => {
                let ghost pathv = path@;
                match ev {
                    Event::File { outcome } => match outcome {
                        FileOutcome::Unreadable => {
                            proof {
                                assert(self@ =~~= spec_step(v0, evv).0);
                            }
                            Err(AnalyzeError::IoError)
                        },
                        FileOutcome::Malformed => {
                            proof {
                                assert(self@ =~~= spec_step(v0, evv).0);
                            }
                            Err(AnalyzeError::ParseError)
                        },
                        FileOutcome::Binary { meta } => {
                            let ghost metav = meta@;
                            let ElfMeta { is_64: _, is_executable, interpreter, libraries } =
                                meta;
                            let interp_file = match &interpreter {
                                Some(p) => base_file_name(p),
                                None => String::new(),
                            };
                            self.interp_file = interp_file;
                            let root = BinaryFile {
                                name: path,
                                real_path: None,
                                interpreter,
                                is_root: true,
                                is_executable,
                            };
                            let ghost rootv = root@;
                            let root_id = crate::tree::tree_insert_root(&mut self.tree, root);
                            push_items(
                                &mut self.stack,
                                libraries,
                                &root_id,
                                2,
                                false,
                                &self.interp_file,
                            );
                            let ghost interp = interp_base(metav.interpreter);
                            let ghost v2 = AnalysisView {
                                interp_file: interp,
                                nodes: seq![root_node(pathv, metav)],
                                stack: items_desc(metav.libraries, 0, 0, 2, interp, false),
                                ..v0
                            };
                            proof {
                                assert(self.interp_file@ == interp);
                                assert(rootv =~~= root_node(pathv, metav).data);
                                assert(tree_nodes(self.tree) =~= seq![root_node(pathv, metav)]);
                                assert(stack_view(self.stack@) =~= items_desc(
                                    metav.libraries,
                                    0,
                                    0,
                                    2,
                                    interp,
                                    false,
                                ));
                                assert(wf_nodes(tree_nodes(self.tree)));
                                assert(depth_of(tree_nodes(self.tree), 0) == 1);
                                assert(data_wf(tree_nodes(self.tree)));
                                assert(depth_bounded(tree_nodes(self.tree)));
                                lemma_items_desc_index(metav.libraries, 0, 0, 2, interp, false);
                                assert forall|i: int|
                                    0 <= i < self.stack@.len() implies self.item_ok(
                                    #[trigger] self.stack@[i],
                                ) by {
                                    assert(self.stack@[i].parent == root_id);
                                    assert(stack_view(self.stack@)[i] == items_desc(
                                        metav.libraries,
                                        0,
                                        0,
                                        2,
                                        interp,
                                        false,
                                    )[i]);
                                    assert(self.stack@[i]@ == item_of(
                                        metav.libraries[metav.libraries.len() - 1 - i],
                                        0,
                                        2,
                                        interp,
                                        false,
                                    ));
                                }
                                assert(self.core_inv());
                            }
                            let ghost vpre = self@;
                            let a = self.advance();
                            proof {
                                lemma_advance_same(vpre, v2);
                                assert(spec_step(v0, evv).0 =~~= spec_advance(v2).0);
                                assert(spec_step(v0, evv).1 =~~= Result::<
                                    ActionView,
                                    AnalyzeError,
                                >::Ok(spec_advance(v2).1));
                            }
                            Ok(a)
                        },
                    },
                    Event::Probed { .. } => {
                        proof {
                            assert(false);
                        }
                        Err(AnalyzeError::IoError)
                    },
                }
            },
            Waiting::Probe { item } => {
                let ghost itv = item@;
                match ev {
                    Event::Probed { found } => {
                        let ghost foundv = found@;
                        let bf = locate_in_dirs(&self.dirs, &item.name, &found);
                        let ghost bfv = bf@;
                        let expand_path: Option<String> = if item.expand {
                            match &bf.real_path {
                                Some(p) => Some(p.clone()),
                                None => None,
                            }
                        } else {
                            None
                        };
                        let ghost nodes0 = tree_nodes(self.tree);
                        let ghost m = NodeModel { data: bfv, parent: node_id_index(item.parent) };
                        let node_id = crate::tree::tree_insert_under(
                            &mut self.tree,
                            &item.parent,
                            bf,
                        );
                        proof {
                            assert(old(self).item_ok(item));
                            assert(bfv == located_file(v0.dirs, itv.name, foundv));
                            assert(tree_nodes(self.tree) == nodes0.push(m));
                            assert forall|i: int|
                                0 <= i < nodes0.len() implies #[trigger] depth_of(
                                nodes0.push(m),
                                i,
                            ) == depth_of(nodes0, i) by {
                                lemma_depth_push(nodes0, m, i);
                            }
                            assert(wf_nodes(tree_nodes(self.tree)));
                            assert(0 <= m.parent < nodes0.len());
                            assert(nodes0.push(m)[nodes0.len() as int] == m);
                            assert(depth_of(nodes0.push(m), nodes0.len() as int) == depth_of(
                                nodes0.push(m),
                                m.parent,
                            ) + 1);
                            assert(depth_of(nodes0.push(m), nodes0.len() as int) == depth_of(
                                nodes0,
                                m.parent,
                            ) + 1);
                            assert(data_wf(tree_nodes(self.tree)));
                            assert(depth_bounded(tree_nodes(self.tree)));
                            assert forall|i: int|
                                0 <= i < self.stack@.len() implies self.item_ok(
                                #[trigger] self.stack@[i],
                            ) by {
                                assert(old(self).item_ok(old(self).stack@[i]));
                            }
                            assert(self.core_inv());
                        }
                        match expand_path {
                            Some(path) => {
                                self.waiting = Waiting::File { node: node_id, depth: item.depth };
                                proof {
                                    assert(bfv.real_path is Some);
                                    assert(self.waiting_inv());
                                    assert(self@ =~~= spec_step(v0, evv).0);
                                }
                                Ok(Action::ReadFile { path })
                            },
                            None => {
                                let ghost v2 = AnalysisView {
                                    nodes: v0.nodes.push(
                                        NodeModel {
                                            data: located_file(v0.dirs, itv.name, foundv),
                                            parent: itv.parent,
                                        },
                                    ),
                                    ..v0
                                };
                                let ghost vpre = self@;
                                let a = self.advance();
                                proof {
                                    lemma_advance_same(vpre, v2);
                                    assert(spec_step(v0, evv).0 =~~= spec_advance(v2).0);
                                    assert(spec_step(v0, evv).1 =~~= Result::<
                                        ActionView,
                                        AnalyzeError,
                                    >::Ok(spec_advance(v2).1));
                                }
                                Ok(a)
                            },
                        }
                    },
                    Event::File { .. } => {
                        proof {
                            assert(false);
                        }
                        Err(AnalyzeError::IoError)
                    },
                }
            },
            Waiting::File { node, depth } => {
                let ghost ni = node_id_index(node);
                match ev {
                    Event::File { outcome } => match outcome {
                        FileOutcome::Unreadable => {
                            proof {
                                assert(self@ =~~= spec_step(v0, evv).0);
                            }
                            Err(AnalyzeError::IoError)
                        },
                        FileOutcome::Malformed => {
                            proof {
                                assert(self@ =~~= spec_step(v0, evv).0);
                            }
                            Err(AnalyzeError::ParseError)
                        },
                        FileOutcome::Binary { meta } => {
                            let ghost metav = meta@;
                            let ElfMeta { is_64: _, is_executable: _, interpreter: _, libraries }
                                = meta;
                            push_items(
                                &mut self.stack,
                                libraries,
                                &node,
                                depth + 1,
                                true,
                                &self.interp_file,
                            );
                            let ghost v2 = AnalysisView {
                                stack: v0.stack + items_desc(
                                    metav.libraries,
                                    0,
                                    ni,
                                    depth as int + 1,
                                    v0.interp_file,
                                    true,
                                ),
                                ..v0
                            };
                            proof {
                                assert(stack_view(self.stack@) == v2.stack);
                                lemma_items_desc_index(
                                    metav.libraries,
                                    0,
                                    ni,
                                    depth as int + 1,
                                    v0.interp_file,
                                    true,
                                );
                                assert forall|i: int|
                                    0 <= i < self.stack@.len() implies self.item_ok(
                                    #[trigger] self.stack@[i],
                                ) by {
                                    if i < old(self).stack@.len() {
                                        assert(self.stack@[i] == old(self).stack@[i]);
                                        assert(old(self).item_ok(old(self).stack@[i]));
                                    } else {
                                        assert(self.stack@[i].parent == node);
                                        assert(stack_view(self.stack@)[i] == items_desc(
                                            metav.libraries,
                                            0,
                                            ni,
                                            depth as int + 1,
                                            v0.interp_file,
                                            true,
                                        )[i - old(self).stack@.len()]);
                                    }
                                }
                                assert(self.core_inv());
                            }
                            let ghost vpre = self@;
                            let a = self.advance();
                            proof {
                                lemma_advance_same(vpre, v2);
                                assert(spec_step(v0, evv).0 =~~= spec_advance(v2).0);
                                assert(spec_step(v0, evv).1 =~~= Result::<
                                    ActionView,
                                    AnalyzeError,
                                >::Ok(spec_advance(v2).1));
                            }
                            Ok(a)
                        },
                    },
                    Event::Probed { .. } => {
                        proof {
                            assert(false);
                        }
                        Err(AnalyzeError::IoError)
                    },
                }
            },
            Waiting::Finished => {
                proof {
                    assert(self@ =~~= v0);
                }
                Ok(Action::Done)
            },
        }
    }

    /// Moves on to the next pending name (asking for its probes), or ends
    /// the walk.
    fn advance(&mut self) -> (a: Action)
        requires
            old(self).core_inv(),
        ensures
            final(self).inv(),
            final(self).tree == old(self).tree,
            final(self).dirs == old(self).dirs,
            final(self).interp_file == old(self).interp_file,
            final(self)@ == spec_advance(old(self)@).0,
            a@ == spec_advance(old(self)@).1,
    {
        let popped = self.stack.pop();
        match popped {
            Some(item) => {
                let paths = make_probe_paths(&self.dirs, &item.name);
                let a = Action::ProbeDirs { paths };
                self.waiting = Waiting::Probe { item };
                proof {
                    assert(stack_view(self.stack@) =~= stack_view(old(self).stack@).drop_last());
                    assert(self@.stack =~= spec_advance(old(self)@).0.stack);
                    assert(self@ =~~= spec_advance(old(self)@).0);
                    assert(a@ =~~= spec_advance(old(self)@).1);
                }
                a
            },
            None => {
                self.waiting = Waiting::Finished;
                proof {
                    assert(self@ =~~= spec_advance(old(self)@).0);
                }
                Action::Done
            },
        }
    }

    /// Hands the completed tree to the caller; it is never mutated again.
    pub fn into_tree(self) -> (t: id_tree::Tree<BinaryFile>)
        requires
            self.inv(),
        ensures
            tree_nodes(t) == self@.nodes,
            tree_pristine(t),
            wf_nodes(tree_nodes(t)),
            data_wf(tree_nodes(t)),
            depth_bounded(tree_nodes(t)),
    {
        self.tree
    }
}

} // verus!
