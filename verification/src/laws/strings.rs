//! Plans for strings lead to the new string.

use vstd::prelude::*;

use crate::apply;
use crate::json::Json;
use crate::laws::normal;
use crate::laws::patches;
use crate::laws::paths;
use crate::message::action::{Act, Segment};
use crate::producer::myers;
use crate::producer::sequences;
use crate::producer::strings;

verus! {

/// A plan for a string, if there is one, leads to the new string.
spec fn leads_to(
    root: Json,
    path: Seq<Segment>,
    plan: Option<Seq<Act>>,
    new: Seq<char>,
) -> bool {
    plan matches Some(acts) ==> paths::leads(
        root,
        normal::norm_acts(acts),
        apply::put(root, path, 0, Json::String(new)),
    )
}

proof fn lemma_append(root: Json, path: Seq<Segment>, old: Seq<char>, new: Seq<char>)
    requires
        paths::found(root, path, Json::String(old)),
    ensures
        leads_to(root, path, strings::append_acts(old, new, path), new),
{
    if let Some(acts) = strings::append_acts(old, new, path) {
        let text = new.skip(old.len() as int);
        let act = Act::StringAppend { path, text };
        assert(old + text =~= new) by {
            assert(new.subrange(0, old.len() as int) == old);
            assert(new =~= new.subrange(0, old.len() as int) + text);
        }
        assert(normal::norm_acts(acts) =~= seq![act]);
        paths::lemma_leads_one(root, act, apply::put(root, path, 0, Json::String(new)));
    }
}

proof fn lemma_prepend(root: Json, path: Seq<Segment>, old: Seq<char>, new: Seq<char>)
    requires
        paths::found(root, path, Json::String(old)),
    ensures
        leads_to(root, path, strings::prepend_acts(old, new, path), new),
{
    if let Some(acts) = strings::prepend_acts(old, new, path) {
        let at = new.len() - old.len();
        let text = new.take(at);
        let act = Act::StringPrepend { path, text };
        assert(text + old =~= new) by {
            assert(new.subrange(at, at + old.len()) == old);
            assert(new =~= text + new.subrange(at, at + old.len()));
        }
        assert(normal::norm_acts(acts) =~= seq![act]);
        paths::lemma_leads_one(root, act, apply::put(root, path, 0, Json::String(new)));
    }
}

proof fn lemma_first_occurrence(whole: Seq<char>, part: Seq<char>, from: int)
    requires
        0 <= from,
    ensures
        strings::first_occurrence(whole, part, from) matches Some(at) ==> strings::occurs_at(
            whole,
            part,
            at,
        ),
    decreases whole.len() + 1 - from,
{
    if from + part.len() <= whole.len() && !strings::occurs_at(whole, part, from) {
        lemma_first_occurrence(whole, part, from + 1);
    }
}

proof fn lemma_surround(root: Json, path: Seq<Segment>, old: Seq<char>, new: Seq<char>)
    requires
        paths::counted(path),
        paths::found(root, path, Json::String(old)),
    ensures
        leads_to(root, path, strings::surround_acts(old, new, path), new),
{
    if let Some(acts) = strings::surround_acts(old, new, path) {
        lemma_first_occurrence(new, old, 0);
        let at = strings::first_occurrence(new, old, 0)->0;
        let front = new.take(at);
        let back = new.skip(at + old.len());
        let first = Act::StringPrepend { path, text: front };
        let second = Act::StringAppend { path, text: back };
        let half = Json::String(front + old);
        let between = apply::put(root, path, 0, half);
        paths::lemma_leads_one(root, first, between);
        paths::lemma_put(root, path, 0, Json::String(old), half, Json::String(new));
        assert(front + old + back =~= new) by {
            assert(new.subrange(at, at + old.len()) == old);
            assert(new =~= front + new.subrange(at, at + old.len()) + back);
        }
        paths::lemma_leads_one(between, second, apply::put(root, path, 0, Json::String(new)));
        paths::lemma_leads_on(
            root,
            seq![first],
            between,
            seq![second],
            apply::put(root, path, 0, Json::String(new)),
        );
        assert(normal::norm_acts(acts) =~= seq![first] + seq![second]);
    }
}

proof fn lemma_patches(root: Json, path: Seq<Segment>, old: Seq<char>, new: Seq<char>)
    requires
        paths::found(root, path, Json::String(old)),
        old.len() <= usize::MAX,
    ensures
        leads_to(root, path, strings::single_patch_acts(old, new, path), new),
        leads_to(root, path, strings::script_patch_acts(old, new, path), new),
{
    let p = myers::problem_of(old, new);
    let words = apply::string_patch_wording();
    let after = apply::put(root, path, 0, Json::String(new));
    assert(patches::tells_equal(p, old, new));
    if let Some(acts) = strings::single_patch_acts(old, new, path) {
        patches::lemma_single_patch(p, old, new, words);
        let act = acts[0];
        assert(normal::norm_acts(acts) =~= seq![act]);
        paths::lemma_leads_one(root, act, after);
    }
    if let Some(acts) = strings::script_patch_acts(old, new, path) {
        let q = myers::problem_of(sequences::middle(old, p), sequences::middle(new, p));
        assert(patches::tells_equal(q, sequences::middle(old, p), sequences::middle(new, p)));
        patches::lemma_script_patch(p, q, old, new, words);
        let act = acts[0];
        assert(normal::norm_acts(acts) =~= seq![act]);
        paths::lemma_leads_one(root, act, after);
    }
}

/// The plan for a string leads to the new string.
pub proof fn lemma_string_plan(
    root: Json,
    path: Seq<Segment>,
    old: Seq<char>,
    new: Seq<char>,
    pool: Seq<Segment>,
)
    requires
        paths::counted(path),
        paths::found(root, path, Json::String(old)),
        old.len() <= usize::MAX,
    ensures
        paths::leads(
            root,
            normal::norm_acts(strings::string_acts(old, new, path, pool)),
            apply::put(root, path, 0, Json::String(new)),
        ),
{
    let after = apply::put(root, path, 0, Json::String(new));
    let act = Act::Replace { path, value: Json::String(new) };
    let replace = seq![act];
    paths::lemma_replace(root, path, Json::String(old), Json::String(new));
    paths::lemma_leads_one(root, act, after);
    assert(normal::norm_acts(replace) =~= replace);
    lemma_append(root, path, old, new);
    lemma_prepend(root, path, old, new);
    lemma_surround(root, path, old, new);
    lemma_patches(root, path, old, new);
}

} // verus!
