//! The laws the resolver obeys, stated over the machine's mathematical
//! transition [`spec_step`] and the tree model, and proved once for all
//! inputs.  `step` is verified against `spec_step`, so these statements
//! carry over to every execution.

use vstd::prelude::*;

use crate::elf::ElfMetaView;
use crate::resolver::data_wf;
use crate::resolver::depth_bounded;
use crate::resolver::item_of;
use crate::resolver::items_desc;
use crate::resolver::lemma_items_desc_index;
use crate::resolver::locate;
use crate::resolver::located_file;
use crate::resolver::root_node;
use crate::resolver::spec_advance;
use crate::resolver::spec_step;
use crate::resolver::start_view;
use crate::resolver::with_finished;
use crate::resolver::AnalysisView;
use crate::resolver::ActionView;
use crate::resolver::EventView;
use crate::resolver::FileOutcomeView;
use crate::resolver::WaitingView;
use crate::resolver::WorkItemView;
use crate::resolver::MAX_DEPTH;
use crate::tree::children_of;
use crate::tree::height_of;
use crate::tree::lemma_children_push;
use crate::tree::lemma_height_bound;
use crate::tree::wf_nodes;
use crate::tree::NodeModel;

verus! {

/// The names of the children of the node at index `p`, eldest first.
pub open spec fn child_names(nodes: Seq<NodeModel>, p: int) -> Seq<Seq<char>> {
    children_of(nodes, p).map_values(|i: int| nodes[i].data.name)
}

/// The names of the pending items that will become children of the root, in
/// the order they will be handled (top of the stack first).
pub open spec fn pending_root_names(stack: Seq<WorkItemView>) -> Seq<Seq<char>>
    decreases stack.len(),
{
    if stack.len() == 0 {
        Seq::empty()
    } else {
        (if stack.last().parent == 0 {
            seq![stack.last().name]
        } else {
            Seq::<Seq<char>>::empty()
        }) + pending_root_names(stack.drop_last())
    }
}

/// The name of the root child whose probe is currently in flight, if any.
pub open spec fn in_flight_root_name(w: WaitingView) -> Seq<Seq<char>> {
    match w {
        WaitingView::Probe { item } => if item.parent == 0 {
            seq![item.name]
        } else {
            Seq::<Seq<char>>::empty()
        },
        _ => Seq::empty(),
    }
}

/// The root built from `path` and `meta` sits at index 0, and the root's
/// recorded children together with the still-pending root names are exactly
/// the declared dependency names, in declaration order.
pub open spec fn root_record(v: AnalysisView, path: Seq<char>, meta: ElfMetaView) -> bool {
    &&& v.nodes.len() > 0
    &&& v.nodes[0] == root_node(path, meta)
    &&& child_names(v.nodes, 0) + in_flight_root_name(v.waiting) + pending_root_names(v.stack)
        == meta.libraries
}

/// Structural soundness of a state, at the level of the mathematical view:
/// every referenced node index is a real node, and a fresh walk is empty.
pub open spec fn vinv(v: AnalysisView) -> bool {
    &&& wf_nodes(v.nodes)
    &&& (forall|i: int|
        0 <= i < v.stack.len() ==> 0 <= (#[trigger] v.stack[i]).parent < v.nodes.len())
    &&& (match v.waiting {
        WaitingView::Root { .. } => v.nodes.len() == 0 && v.stack.len() == 0,
        WaitingView::Probe { item } => 0 <= item.parent < v.nodes.len(),
        WaitingView::File { node, depth: _ } => 1 <= node < v.nodes.len(),
        WaitingView::Finished => true,
    })
}

/// The state after feeding the machine the events `evs`, in order.
pub open spec fn run_state(v: AnalysisView, evs: Seq<EventView>) -> AnalysisView
    decreases evs.len(),
{
    if evs.len() == 0 {
        v
    } else {
        run_state(spec_step(v, evs.first()).0, evs.drop_first())
    }
}

/// Every child index names a real node.
proof fn lemma_children_of_bounds(nodes: Seq<NodeModel>, p: int)
    ensures
        forall|j: int|
            0 <= j < children_of(nodes, p).len() ==> 0 <= #[trigger] children_of(nodes, p)[j]
                < nodes.len(),
    decreases nodes.len(),
{
    if nodes.len() > 0 {
        lemma_children_of_bounds(nodes.drop_last(), p);
        let rec = children_of(nodes.drop_last(), p);
        assert forall|j: int|
            0 <= j < children_of(nodes, p).len() implies 0 <= #[trigger] children_of(nodes, p)[j]
            < nodes.len() by {
            if nodes.last().parent == p {
                assert(children_of(nodes, p) == rec.push(nodes.len() - 1));
                if j < rec.len() {
                    assert(children_of(nodes, p)[j] == rec[j]);
                }
            } else {
                assert(children_of(nodes, p) == rec);
            }
        }
    }
}

/// Appending a node appends its name to exactly its parent's child names.
proof fn lemma_child_names_push(nodes: Seq<NodeModel>, m: NodeModel, p: int)
    ensures
        child_names(nodes.push(m), p) == if m.parent == p {
            child_names(nodes, p).push(m.data.name)
        } else {
            child_names(nodes, p)
        },
{
    lemma_children_push(nodes, m, p);
    lemma_children_of_bounds(nodes, p);
    if m.parent == p {
        assert(child_names(nodes.push(m), p) =~= child_names(nodes, p).push(m.data.name));
    } else {
        assert(child_names(nodes.push(m), p) =~= child_names(nodes, p));
    }
}

/// Items that do not point at the root leave the pending root names alone.
proof fn lemma_pending_push_nonroot(stack: Seq<WorkItemView>, items: Seq<WorkItemView>)
    requires
        forall|j: int| 0 <= j < items.len() ==> (#[trigger] items[j]).parent != 0,
    ensures
        pending_root_names(stack + items) == pending_root_names(stack),
    decreases items.len(),
{
    if items.len() == 0 {
        assert(stack + items =~= stack);
    } else {
        assert((stack + items).drop_last() =~= stack + items.drop_last());
        assert((stack + items).last() == items.last());
        lemma_pending_push_nonroot(stack, items.drop_last());
    }
}

/// Pushing the items for declared names `libs[k..]` under the root queues
/// exactly those names, in declaration order, ahead of what was pending.
proof fn lemma_pending_items_desc(
    stack: Seq<WorkItemView>,
    libs: Seq<Seq<char>>,
    k: int,
    depth: int,
    interp: Seq<char>,
    guard: bool,
)
    requires
        0 <= k <= libs.len(),
    ensures
        pending_root_names(stack + items_desc(libs, k, 0, depth, interp, guard))
            == libs.subrange(k, libs.len() as int) + pending_root_names(stack),
    decreases libs.len() - k,
{
    if k == libs.len() {
        assert(stack + items_desc(libs, k, 0, depth, interp, guard) =~= stack);
        assert(libs.subrange(k, libs.len() as int) + pending_root_names(stack)
            =~= pending_root_names(stack));
    } else {
        let items = items_desc(libs, k, 0, depth, interp, guard);
        let rest = items_desc(libs, k + 1, 0, depth, interp, guard);
        assert(items == rest.push(item_of(libs[k], 0, depth, interp, guard)));
        assert((stack + items).drop_last() =~= stack + rest);
        assert((stack + items).last() == item_of(libs[k], 0, depth, interp, guard));
        lemma_pending_items_desc(stack, libs, k + 1, depth, interp, guard);
        assert(seq![libs[k]] + (libs.subrange(k + 1, libs.len() as int) + pending_root_names(
            stack,
        )) =~= libs.subrange(k, libs.len() as int) + pending_root_names(stack));
    }
}

/// Moving to the next pending name keeps the root's record intact: either
/// the walk ends, or the top item goes in flight and the books still
/// balance.
proof fn lemma_advance_preserves(vm: AnalysisView, path: Seq<char>, meta: ElfMetaView)
    requires
        wf_nodes(vm.nodes),
        forall|i: int|
            0 <= i < vm.stack.len() ==> 0 <= (#[trigger] vm.stack[i]).parent < vm.nodes.len(),
        vm.nodes.len() > 0,
        vm.nodes[0] == root_node(path, meta),
        child_names(vm.nodes, 0) + pending_root_names(vm.stack) == meta.libraries,
    ensures
        vinv(spec_advance(vm).0),
        !(spec_advance(vm).0.waiting is Root),
        root_record(spec_advance(vm).0, path, meta),
{
    let v2 = spec_advance(vm).0;
    if vm.stack.len() == 0 {
        assert(pending_root_names(vm.stack) =~= Seq::<Seq<char>>::empty());
        assert(child_names(v2.nodes, 0) + in_flight_root_name(v2.waiting) + pending_root_names(
            v2.stack,
        ) =~= child_names(vm.nodes, 0) + pending_root_names(vm.stack));
    } else {
        let top = vm.stack.last();
        assert(v2.stack == vm.stack.drop_last());
        assert(v2.waiting == (WaitingView::Probe { item: top }));
        assert(pending_root_names(vm.stack) == in_flight_root_name(v2.waiting)
            + pending_root_names(v2.stack));
        assert(child_names(v2.nodes, 0) + in_flight_root_name(v2.waiting) + pending_root_names(
            v2.stack,
        ) =~= child_names(vm.nodes, 0) + pending_root_names(vm.stack));
    }
}

/// One step of the machine keeps the walk sound and the root's record in
/// balance, whatever the driver answers.
proof fn lemma_step_preserves(v: AnalysisView, ev: EventView, path: Seq<char>, meta: ElfMetaView)
    requires
        vinv(v),
        !(v.waiting is Root),
        root_record(v, path, meta),
    ensures
        vinv(spec_step(v, ev).0),
        !(spec_step(v, ev).0.waiting is Root),
        root_record(spec_step(v, ev).0, path, meta),
{
    let v2 = spec_step(v, ev).0;
    match v.waiting {
        WaitingView::Root { .. } => {},
        WaitingView::Probe { item } => match ev {
            EventView::Probed { found } => {
                let data = located_file(v.dirs, item.name, found);
                let m = NodeModel { data, parent: item.parent };
                let vm = AnalysisView { nodes: v.nodes.push(m), ..v };
                assert(vm.nodes[0] == v.nodes[0]);
                assert(wf_nodes(vm.nodes));
                lemma_child_names_push(v.nodes, m, 0);
                let ghost libs0 = meta.libraries;
                if item.parent == 0 {
                    assert(child_names(vm.nodes, 0) + pending_root_names(vm.stack)
                        =~= child_names(v.nodes, 0) + in_flight_root_name(v.waiting)
                        + pending_root_names(v.stack));
                } else {
                    assert(in_flight_root_name(v.waiting) =~= Seq::<Seq<char>>::empty());
                    assert(child_names(vm.nodes, 0) + pending_root_names(vm.stack)
                        =~= child_names(v.nodes, 0) + in_flight_root_name(v.waiting)
                        + pending_root_names(v.stack));
                }
                assert(child_names(vm.nodes, 0) + pending_root_names(vm.stack) == libs0);
                if data.real_path is Some && item.expand {
                    assert(v2 == AnalysisView {
                        waiting: WaitingView::File { node: v.nodes.len() as int, depth: item.depth },
                        ..vm
                    });
                    assert(in_flight_root_name(v2.waiting) =~= Seq::<Seq<char>>::empty());
                    assert(child_names(v2.nodes, 0) + in_flight_root_name(v2.waiting)
                        + pending_root_names(v2.stack) =~= child_names(vm.nodes, 0)
                        + pending_root_names(vm.stack));
                } else {
                    lemma_advance_preserves(vm, path, meta);
                    assert(v2 == spec_advance(vm).0);
                }
            },
            _ => {},
        },
        WaitingView::File { node, depth } => match ev {
            EventView::File { outcome } => match outcome {
                FileOutcomeView::Unreadable => {
                    assert(v2 == with_finished(v));
                    assert(in_flight_root_name(v.waiting) =~= Seq::<Seq<char>>::empty());
                    assert(child_names(v2.nodes, 0) + in_flight_root_name(v2.waiting)
                        + pending_root_names(v2.stack) =~= child_names(v.nodes, 0)
                        + in_flight_root_name(v.waiting) + pending_root_names(v.stack));
                },
                FileOutcomeView::Malformed => {
                    assert(v2 == with_finished(v));
                    assert(in_flight_root_name(v.waiting) =~= Seq::<Seq<char>>::empty());
                    assert(child_names(v2.nodes, 0) + in_flight_root_name(v2.waiting)
                        + pending_root_names(v2.stack) =~= child_names(v.nodes, 0)
                        + in_flight_root_name(v.waiting) + pending_root_names(v.stack));
                },
                FileOutcomeView::Binary { meta: meta2 } => {
                    let items = items_desc(
                        meta2.libraries,
                        0,
                        node,
                        depth + 1,
                        v.interp_file,
                        true,
                    );
                    lemma_items_desc_index(meta2.libraries, 0, node, depth + 1, v.interp_file, true);
                    assert forall|j: int| 0 <= j < items.len() implies (#[trigger] items[j]).parent
                        != 0 by {
                        assert(items[j] == item_of(
                            meta2.libraries[meta2.libraries.len() - 1 - j],
                            node,
                            depth + 1,
                            v.interp_file,
                            true,
                        ));
                    }
                    lemma_pending_push_nonroot(v.stack, items);
                    let vm = AnalysisView { stack: v.stack + items, ..v };
                    assert(in_flight_root_name(v.waiting) =~= Seq::<Seq<char>>::empty());
                    assert(child_names(vm.nodes, 0) + pending_root_names(vm.stack)
                        =~= child_names(v.nodes, 0) + in_flight_root_name(v.waiting)
                        + pending_root_names(v.stack));
                    assert forall|i: int|
                        0 <= i < vm.stack.len() implies 0 <= (#[trigger] vm.stack[i]).parent
                        < vm.nodes.len() by {
                        if i >= v.stack.len() {
                            assert(vm.stack[i] == items[i - v.stack.len()]);
                        }
                    }
                    lemma_advance_preserves(vm, path, meta);
                    assert(v2 == spec_advance(vm).0);
                },
            },
            _ => {},
        },
        WaitingView::Finished => {},
    }
}

/// The first step of a walk whose root file carries `meta` records the root
/// and queues exactly the declared names, in order.
proof fn lemma_first_step(dirs: Seq<Seq<char>>, path: Seq<char>, meta: ElfMetaView)
    ensures
        ({
            let v1 = spec_step(
                start_view(dirs, path),
                EventView::File { outcome: FileOutcomeView::Binary { meta } },
            ).0;
            &&& vinv(v1)
            &&& !(v1.waiting is Root)
            &&& root_record(v1, path, meta)
        }),
{
    let v0 = start_view(dirs, path);
    let interp = crate::resolver::interp_base(meta.interpreter);
    let items = items_desc(meta.libraries, 0, 0, 2, interp, false);
    let vm = AnalysisView {
        interp_file: interp,
        nodes: seq![root_node(path, meta)],
        stack: items,
        ..v0
    };
    lemma_items_desc_index(meta.libraries, 0, 0, 2, interp, false);
    assert(vm.nodes.drop_last() =~= Seq::<NodeModel>::empty());
    assert(children_of(Seq::<NodeModel>::empty(), 0) == Seq::<int>::empty());
    assert(vm.nodes.last() == root_node(path, meta));
    assert(vm.nodes.last().parent == -1);
    assert(children_of(vm.nodes, 0) =~= Seq::<int>::empty());
    assert(child_names(vm.nodes, 0) =~= Seq::<Seq<char>>::empty());
    assert(Seq::<WorkItemView>::empty() + items =~= items);
    lemma_pending_items_desc(Seq::<WorkItemView>::empty(), meta.libraries, 0, 2, interp, false);
    assert(meta.libraries.subrange(0, meta.libraries.len() as int) =~= meta.libraries);
    assert(pending_root_names(vm.stack) + Seq::<Seq<char>>::empty() =~= pending_root_names(
        vm.stack,
    ));
    assert(pending_root_names(vm.stack) =~= meta.libraries);
    assert(child_names(vm.nodes, 0) + pending_root_names(vm.stack) =~= meta.libraries);
    lemma_advance_preserves(vm, path, meta);
    assert(spec_step(v0, EventView::File { outcome: FileOutcomeView::Binary { meta } }).0
        == spec_advance(vm).0);
}

/// Whatever answers follow, a walk whose root carried `meta` keeps the
/// root's record in balance.
proof fn lemma_run_preserves(v: AnalysisView, evs: Seq<EventView>, path: Seq<char>, meta: ElfMetaView)
    requires
        vinv(v),
        !(v.waiting is Root),
        root_record(v, path, meta),
    ensures
        vinv(run_state(v, evs)),
        !(run_state(v, evs).waiting is Root),
        root_record(run_state(v, evs), path, meta),
    decreases evs.len(),
{
    if evs.len() > 0 {
        lemma_step_preserves(v, evs.first(), path, meta);
        lemma_run_preserves(spec_step(v, evs.first()).0, evs.drop_first(), path, meta);
    }
}

/// For a root binary declaring interpreter `I` and the dependency names
/// `[l1, ..., ln]` in that order, any walk that runs to completion yields a
/// root node carrying `I` (and the caller's path) whose direct children are
/// exactly `l1, ..., ln`, in that order — however the probes and reads were
/// answered.
pub proof fn lemma_root_interpreter_and_order(
    dirs: Seq<Seq<char>>,
    path: Seq<char>,
    meta: ElfMetaView,
    evs: Seq<EventView>,
)
    ensures
        ({
            let v1 = spec_step(
                start_view(dirs, path),
                EventView::File { outcome: FileOutcomeView::Binary { meta } },
            ).0;
            let vf = run_state(v1, evs);
            (vf.waiting is Finished && vf.stack.len() == 0) ==> {
                &&& vf.nodes.len() > 0
                &&& vf.nodes[0].data.is_root
                &&& vf.nodes[0].data.name == path
                &&& vf.nodes[0].data.interpreter == meta.interpreter
                &&& child_names(vf.nodes, 0) == meta.libraries
            }
        }),
{
    let v1 = spec_step(
        start_view(dirs, path),
        EventView::File { outcome: FileOutcomeView::Binary { meta } },
    ).0;
    let vf = run_state(v1, evs);
    lemma_first_step(dirs, path, meta);
    lemma_run_preserves(v1, evs, path, meta);
    if vf.waiting is Finished && vf.stack.len() == 0 {
        assert(in_flight_root_name(vf.waiting) =~= Seq::<Seq<char>>::empty());
        assert(pending_root_names(vf.stack) =~= Seq::<Seq<char>>::empty());
        assert(child_names(vf.nodes, 0) =~= child_names(vf.nodes, 0) + in_flight_root_name(
            vf.waiting,
        ) + pending_root_names(vf.stack));
    }
}

/// A hit at position `i`, with no earlier hit, resolves to that directory.
proof fn lemma_locate_from_hit(
    dirs: Seq<Seq<char>>,
    name: Seq<char>,
    found: Seq<bool>,
    k: int,
    i: int,
)
    requires
        0 <= k <= i < dirs.len(),
        i < found.len(),
        found[i],
        forall|j: int| k <= j < i ==> !(j < found.len() && found[j]),
    ensures
        crate::resolver::locate_from(dirs, name, found, k) == Some(dirs[i] + name),
    decreases i - k,
{
    if k < i {
        lemma_locate_from_hit(dirs, name, found, k + 1, i);
    }
}

/// With no hit anywhere, nothing resolves.
proof fn lemma_locate_from_none(dirs: Seq<Seq<char>>, name: Seq<char>, found: Seq<bool>, k: int)
    requires
        0 <= k,
        forall|j: int| k <= j < dirs.len() ==> !(j < found.len() && found[j]),
    ensures
        crate::resolver::locate_from(dirs, name, found, k) is None,
    decreases dirs.len() - k,
{
    if k < dirs.len() {
        lemma_locate_from_none(dirs, name, found, k + 1);
    }
}

/// A declared name present in a search directory — first hit at directory
/// `i` — is recorded with `real_path` equal to that directory plus the name,
/// and (when its item is expandable) the resolver's next request is to read
/// that very file: the dependency is walked in turn.
pub proof fn lemma_resolved_dependency(
    v: AnalysisView,
    item: WorkItemView,
    found: Seq<bool>,
    i: int,
)
    requires
        v.waiting == (WaitingView::Probe { item }),
        0 <= i < v.dirs.len(),
        i < found.len(),
        found[i],
        forall|j: int| 0 <= j < i ==> !(j < found.len() && found[j]),
    ensures
        ({
            let (v2, r) = spec_step(v, EventView::Probed { found });
            &&& v2.nodes == v.nodes.push(
                NodeModel {
                    data: crate::binary_file::BinaryFileView {
                        name: item.name,
                        real_path: Some(v.dirs[i] + item.name),
                        interpreter: None,
                        is_root: false,
                        is_executable: false,
                    },
                    parent: item.parent,
                },
            )
            &&& (item.expand ==> r == Result::<ActionView, crate::errors::AnalyzeError>::Ok(
                ActionView::ReadFile { path: v.dirs[i] + item.name },
            ))
        }),
{
    lemma_locate_from_hit(v.dirs, item.name, found, 0, i);
    assert(locate(v.dirs, item.name, found) == Some(v.dirs[i] + item.name));
}

/// A declared name absent from every search directory is recorded with
/// `real_path == None`, and the resolver does not descend into it.
pub proof fn lemma_unresolved_dependency(v: AnalysisView, item: WorkItemView, found: Seq<bool>)
    requires
        v.waiting == (WaitingView::Probe { item }),
        forall|j: int| 0 <= j < v.dirs.len() ==> !(j < found.len() && found[j]),
    ensures
        ({
            let (v2, r) = spec_step(v, EventView::Probed { found });
            &&& v2.nodes == v.nodes.push(
                NodeModel {
                    data: crate::binary_file::BinaryFileView {
                        name: item.name,
                        real_path: None,
                        interpreter: None,
                        is_root: false,
                        is_executable: false,
                    },
                    parent: item.parent,
                },
            )
            &&& r is Ok
            &&& !(r.unwrap() is ReadFile)
        }),
{
    lemma_locate_from_none(v.dirs, item.name, found, 0);
    assert(locate(v.dirs, item.name, found) is None);
}

/// Every pending item together with the one in flight, eldest first.
pub open spec fn pending_with_in_flight(v: AnalysisView) -> Seq<WorkItemView> {
    match v.waiting {
        WaitingView::Probe { item } => v.stack.push(item),
        _ => v.stack,
    }
}

/// Expanding a resolved library queues one pending item per declared name —
/// the `j`-th declared name sitting `j`-th from the top — and the item for
/// a name that matches the interpreter's file name is marked not to be
/// expanded: it will be recorded as a child and left a leaf.
pub proof fn lemma_interpreter_guard(
    v: AnalysisView,
    node: int,
    depth: int,
    meta: ElfMetaView,
    j: int,
)
    requires
        v.waiting == (WaitingView::File { node, depth }),
        0 <= j < meta.libraries.len(),
    ensures
        ({
            let v2 = spec_step(v, EventView::File { outcome: FileOutcomeView::Binary { meta } }).0;
            let items = items_desc(meta.libraries, 0, node, depth + 1, v.interp_file, true);
            &&& pending_with_in_flight(v2) == v.stack + items
            &&& items.len() == meta.libraries.len()
            &&& items[meta.libraries.len() - 1 - j].name == meta.libraries[j]
            &&& items[meta.libraries.len() - 1 - j].parent == node
            &&& (meta.libraries[j] == v.interp_file ==> !items[meta.libraries.len() - 1
                - j].expand)
        }),
{
    let v2 = spec_step(v, EventView::File { outcome: FileOutcomeView::Binary { meta } }).0;
    let items = items_desc(meta.libraries, 0, node, depth + 1, v.interp_file, true);
    lemma_items_desc_index(meta.libraries, 0, node, depth + 1, v.interp_file, true);
    let vm = AnalysisView { stack: v.stack + items, ..v };
    assert(v2 == spec_advance(vm).0);
    if vm.stack.len() == 0 {
        assert(pending_with_in_flight(v2) =~= v.stack + items);
    } else {
        assert(pending_with_in_flight(v2) == vm.stack.drop_last().push(vm.stack.last()));
        assert(pending_with_in_flight(v2) =~= v.stack + items);
    }
}

/// A pending item marked not to be expanded still records its node — with
/// whatever resolution the probe gave — but the resolver never asks to read
/// it and queues nothing under it: the node stays a leaf.
pub proof fn lemma_unexpanded_item(v: AnalysisView, item: WorkItemView, found: Seq<bool>)
    requires
        v.waiting == (WaitingView::Probe { item }),
        !item.expand,
    ensures
        ({
            let (v2, r) = spec_step(v, EventView::Probed { found });
            &&& v2.nodes == v.nodes.push(
                NodeModel {
                    data: located_file(v.dirs, item.name, found),
                    parent: item.parent,
                },
            )
            &&& r is Ok
            &&& !(r.unwrap() is ReadFile)
            &&& pending_with_in_flight(v2) == v.stack
        }),
{
    let (v2, r) = spec_step(v, EventView::Probed { found });
    let m = NodeModel { data: located_file(v.dirs, item.name, found), parent: item.parent };
    let vm = AnalysisView { nodes: v.nodes.push(m), ..v };
    assert(v2 == spec_advance(vm).0);
    if vm.stack.len() == 0 {
        assert(pending_with_in_flight(v2) =~= v.stack);
    } else {
        assert(pending_with_in_flight(v2) =~= v.stack);
    }
}

/// Every tree the resolver hands back has bounded height: the walk cannot
/// have descended past the depth cap, interpreter self-reference or not.
pub proof fn lemma_bounded_height(nodes: Seq<NodeModel>)
    requires
        wf_nodes(nodes),
        depth_bounded(nodes),
    ensures
        height_of(nodes) <= MAX_DEPTH as int,
{
    lemma_height_bound(nodes, MAX_DEPTH as int);
}

/// The machine is a pure function of its start state and the answers it
/// hears.  With an unchanged filesystem a driver gives the same answers
/// twice, so two walks of the same root produce structurally identical
/// states — the same tree, node for node and in the same order.
pub proof fn lemma_same_events_same_tree(
    v1: AnalysisView,
    v2: AnalysisView,
    evs1: Seq<EventView>,
    evs2: Seq<EventView>,
)
    requires
        v1 == v2,
        evs1 == evs2,
    ensures
        run_state(v1, evs1) == run_state(v2, evs2),
{
}

/// A node index nothing points at has no children.
proof fn lemma_children_of_none(nodes: Seq<NodeModel>, p: int)
    requires
        forall|j: int| 0 <= j < nodes.len() ==> (#[trigger] nodes[j]).parent != p,
    ensures
        children_of(nodes, p) == Seq::<int>::empty(),
    decreases nodes.len(),
{
    if nodes.len() > 0 {
        lemma_children_of_none(nodes.drop_last(), p);
        assert(children_of(nodes, p) =~= Seq::<int>::empty());
    }
}

/// In any tree the resolver hands back, a dependency that resolved to no
/// file is a leaf: an unresolved name has zero children.
pub proof fn lemma_unresolved_leaf(nodes: Seq<NodeModel>, i: int)
    requires
        wf_nodes(nodes),
        data_wf(nodes),
        0 < i < nodes.len(),
        nodes[i].data.real_path is None,
    ensures
        children_of(nodes, i) == Seq::<int>::empty(),
        child_names(nodes, i) == Seq::<Seq<char>>::empty(),
{
    assert forall|j: int| 0 <= j < nodes.len() implies (#[trigger] nodes[j]).parent != i by {
        if 0 < j < nodes.len() && nodes[j].parent == i {
            assert(nodes[j].parent == 0 || nodes[nodes[j].parent].data.real_path is Some);
        }
    }
    lemma_children_of_none(nodes, i);
    assert(child_names(nodes, i) =~= Seq::<Seq<char>>::empty());
}

} // verus!
