//! Plans for arrays lead to the new array.

use vstd::prelude::*;

use crate::apply;
use crate::json;
use crate::json::Json;
use crate::laws::normal;
use crate::laws::patches;
use crate::laws::paths;
use crate::message::action::{Act, Edit, Segment};
use crate::producer::arrays;
use crate::producer::diff;
use crate::producer::hunks;
use crate::producer::myers;
use crate::producer::sequences;

verus! {

/// Removing items from the end of an array shortens it.
pub proof fn lemma_shrink(
    root: Json,
    path: Seq<Segment>,
    before: Json,
    items: Seq<Json>,
    left: nat,
)
    requires
        paths::counted(path),
        paths::found(root, path, before),
        left <= items.len(),
    ensures
        paths::leads(
            apply::put(root, path, 0, Json::Array(items)),
            normal::norm_acts(diff::shrink_acts(items.len(), left, path)),
            apply::put(root, path, 0, Json::Array(items.take(left as int))),
        ),
    decreases items.len(),
{
    let acts = diff::shrink_acts(items.len(), left, path);
    let here = apply::put(root, path, 0, Json::Array(items));
    if items.len() == left {
        assert(items.take(left as int) =~= items);
        assert(normal::norm_acts(acts) =~= Seq::empty());
        paths::lemma_leads_nowhere(here);
    } else {
        let last = items.len() - 1;
        let segment = Segment::Index(last);
        let act = Act::Remove { path: path.push(segment) };
        let shorter = items.drop_last();
        let there = apply::put(root, path, 0, Json::Array(shorter));
        paths::lemma_put(root, path, 0, before, Json::Array(items), Json::Array(shorter));
        paths::lemma_remove_item(here, path, items, last);
        assert(items.remove(last) =~= shorter);
        lemma_shrink(root, path, before, shorter, left);
        assert(shorter.take(left as int) =~= items.take(left as int));
        let rest = diff::shrink_acts(shorter.len(), left, path);
        assert(acts =~= seq![act] + rest);
        assert(normal::norm_acts(acts) =~= seq![act] + normal::norm_acts(rest));
        paths::lemma_leads_on(
            here,
            seq![act],
            there,
            normal::norm_acts(rest),
            apply::put(root, path, 0, Json::Array(items.take(left as int))),
        );
    }
}

/// Adding items at the end of an array lengthens it.
pub proof fn lemma_grow(
    root: Json,
    path: Seq<Segment>,
    before: Json,
    new: Seq<Json>,
    length: nat,
)
    requires
        paths::counted(path),
        paths::found(root, path, before),
        length <= new.len(),
    ensures
        paths::leads(
            apply::put(
                root,
                path,
                0,
                Json::Array(normal::norm_items(new).take(length as int)),
            ),
            normal::norm_acts(diff::grow_acts(new, length, path)),
            apply::put(root, path, 0, Json::Array(normal::norm_items(new))),
        ),
    decreases new.len() - length,
{
    let acts = diff::grow_acts(new, length, path);
    let all = normal::norm_items(new);
    let items = all.take(length as int);
    let here = apply::put(root, path, 0, Json::Array(items));
    if length == new.len() {
        assert(items =~= all);
        assert(normal::norm_acts(acts) =~= Seq::empty());
        paths::lemma_leads_nowhere(here);
    } else {
        let segment = Segment::Index(length as int);
        let value = new[length as int];
        let act = Act::Add { path: path.push(segment), value };
        let longer = all.take(length as int + 1);
        let there = apply::put(root, path, 0, Json::Array(longer));
        paths::lemma_put(root, path, 0, before, Json::Array(items), Json::Array(longer));
        paths::lemma_add_item(here, path, items, length as int, json::norm(value));
        assert(items.insert(length as int, json::norm(value)) =~= longer);
        lemma_grow(root, path, before, new, length + 1);
        let rest = diff::grow_acts(new, length + 1, path);
        assert(acts =~= seq![act] + rest);
        assert(normal::norm_acts(acts) =~= seq![normal::norm_act(act)] + normal::norm_acts(rest));
        paths::lemma_leads_on(
            here,
            seq![normal::norm_act(act)],
            there,
            normal::norm_acts(rest),
            apply::put(root, path, 0, Json::Array(all)),
        );
    }
}

/// Patches of an array lead to the new array.
pub proof fn lemma_patches(root: Json, path: Seq<Segment>, old: Seq<Json>, new: Seq<Json>)
    requires
        paths::found(root, path, Json::Array(normal::norm_items(old))),
        old.len() <= usize::MAX,
    ensures
        ({
            let after = apply::put(root, path, 0, Json::Array(normal::norm_items(new)));
            &&& arrays::single_patch_acts(old, new, path) matches Some(acts) ==> paths::leads(
                root,
                normal::norm_acts(acts),
                after,
            )
            &&& arrays::script_patch_acts(old, new, path) matches Some(acts) ==> paths::leads(
                root,
                normal::norm_acts(acts),
                after,
            )
        }),
{
    let p = arrays::value_problem(old, new);
    let from = normal::norm_items(old);
    let to = normal::norm_items(new);
    let words = apply::array_patch_wording();
    let after = apply::put(root, path, 0, Json::Array(to));
    assert(patches::tells_equal(p, from, to));
    sequences::lemma_ends(p);
    assert(normal::norm_items(sequences::middle(old, p)) =~= sequences::middle(from, p));
    assert(normal::norm_items(sequences::middle(new, p)) =~= sequences::middle(to, p));
    if let Some(acts) = arrays::single_patch_acts(old, new, path) {
        patches::lemma_single_patch(p, from, to, words);
        let edit = Edit {
            start: sequences::prefix_len(p),
            delete_count: sequences::middle(old, p).len() as int,
            items: sequences::middle(new, p),
        };
        assert(normal::norm_edits(seq![edit]) =~= seq![normal::norm_edit(edit)]);
        let act = Act::ArrayPatch { path, edits: seq![normal::norm_edit(edit)] };
        assert(normal::norm_acts(acts) =~= seq![act]);
        paths::lemma_leads_one(root, act, after);
    }
    if let Some(acts) = arrays::script_patch_acts(old, new, path) {
        let a = sequences::middle(old, p);
        let b = sequences::middle(new, p);
        let q = arrays::value_problem(a, b);
        assert(patches::tells_equal(q, sequences::middle(from, p), sequences::middle(to, p))) by {
            assert forall|i: int, j: int|
                0 <= i < a.len() && 0 <= j < b.len() && #[trigger] (q.alike)(i, j) implies
                normal::norm_items(a)[i] == normal::norm_items(b)[j] by {
                assert(json::same(a[i], b[j]));
            }
        }
        let prefix = sequences::prefix_len(p);
        let edits = hunks::script_edits(q.script(), b, prefix);
        lemma_norm_script_edits(q, b, prefix);
        patches::lemma_script_patch(p, q, from, to, words);
        let act = Act::ArrayPatch { path, edits: normal::norm_edits(edits) };
        assert(normal::norm_acts(acts) =~= seq![act]);
        paths::lemma_leads_one(root, act, after);
    }
}

/// The edits of a script do not see the sign of zero floats.
proof fn lemma_norm_script_edits(q: myers::Problem, new: Seq<Json>, prefix: int)
    requires
        q.well_formed(),
        q.m == new.len(),
    ensures
        normal::norm_edits(hunks::script_edits(q.script(), new, prefix)) == hunks::script_edits(
            q.script(),
            normal::norm_items(new),
            prefix,
        ),
{
    let ops = q.script();
    let runs = hunks::hunks(ops);
    let a = normal::norm_edits(hunks::script_edits(ops, new, prefix));
    let b = hunks::script_edits(ops, normal::norm_items(new), prefix);
    myers::law_script_leads_to_the_end(q);
    hunks::lemma_fits_in_reach(ops, q.alike);
    assert forall|i: int| 0 <= i < a.len() implies a[i] == b[i] by {
        let at = runs.len() - 1 - i;
        hunks::lemma_hunk_bounds(ops, q.m, at);
        let inserted = runs[at].inserted;
        assert forall|k: int| 0 <= k < inserted.len() implies json::norm(new[inserted[k]])
            == normal::norm_items(new)[inserted[k]] by {
            assert(0 <= inserted[k] < q.m);
        }
        assert(a[i].items =~= b[i].items);
    }
    assert(a =~= b);
}

} // verus!
