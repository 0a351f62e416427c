use vstd::prelude::*;
use crate::tree::{
    Tree, TreeView, fields_view, find_field, first_field, items_view, lemma_fields_view_dom,
    lemma_fields_view_first, lemma_fields_view_last, lemma_fields_view_update, lemma_items_view_add,
};

verus! {

/// The value a field ends up with when a default node `dv` (absent: `None`)
/// meets the incoming node `iv`: two arrays are joined, default elements
/// first; anything else merges as a node.
pub open spec fn merged_field(dv: Option<TreeView>, iv: TreeView) -> TreeView
    decreases iv, 1nat,
{
    match (dv, iv) {
        (Some(TreeView::Array(a)), TreeView::Array(b)) => TreeView::Array(a + b),
        (Some(x), _) => merged(x, iv),
        (None, _) => iv,
    }
}

/// The merge of a default tree `d` with an incoming tree `i`: where both are
/// objects, their fields are merged; everywhere else the incoming tree wins.
pub open spec fn merged(d: TreeView, i: TreeView) -> TreeView
    decreases i, 0nat,
{
    match (d, i) {
        (TreeView::Object(dm), TreeView::Object(im)) => TreeView::Object(
            Map::new(
                |k: Seq<char>| dm.contains_key(k) || im.contains_key(k),
                |k: Seq<char>|
                    if im.contains_key(k) {
                        merged_field(
                            if dm.contains_key(k) {
                                Some(dm[k])
                            } else {
                                None
                            },
                            im[k],
                        )
                    } else {
                        dm[k]
                    },
            ),
        ),
        _ => i,
    }
}

/// The fields of two merged objects: every field of either, where those of
/// the incoming object `im` are merged into those of the default `dm`.
pub open spec fn merged_fields(
    dm: Map<Seq<char>, TreeView>,
    im: Map<Seq<char>, TreeView>,
) -> Map<Seq<char>, TreeView> {
    merged(TreeView::Object(dm), TreeView::Object(im))->Object_0
}

/// Merges the incoming tree `i` into the default tree `d`.
///
/// Where both are objects, each field of `i` is merged into the field of the
/// same name in `d` (a field that `d` lacks is added as it comes), except
/// that two arrays under one name are joined, the default's elements first.
/// Fields that only `d` has keep their value. Where the two are not both
/// objects, `i` replaces `d`.
pub fn merge(d: &mut Tree, i: Tree)
    ensures
        final(d)@ == merged(old(d)@, i@),
    decreases i, 1nat,
{
    match i {
        Tree::Object(incoming) => {
            match d {
                Tree::Object(fields) => {
                    merge_fields(fields, incoming);
                },
                _ => {
                    *d = Tree::Object(incoming);
                },
            }
        },
        _ => {
            *d = i;
        },
    }
}

/// Merges the incoming fields into the default object's fields.
fn merge_fields(fields: &mut Vec<(String, Tree)>, given: Vec<(String, Tree)>)
    ensures
        fields_view(final(fields)@) == merged_fields(fields_view(old(fields)@), fields_view(given@)),
    decreases given, 0nat,
{
    let ghost dm = fields_view(fields@);
    let ghost orig = given@;
    let mut incoming = given;
    let mut j: usize = 0;
    assert(orig.take(0) =~= Seq::<(String, Tree)>::empty());
    assert(fields_view(fields@) =~= merged_fields(dm, fields_view(orig.take(0))));
    while j < incoming.len()
        invariant
            orig == given@,
            incoming@.len() == orig.len(),
            j <= orig.len(),
            forall|t: int| 0 <= t < orig.len() ==> #[trigger] incoming@[t].0 == orig[t].0,
            forall|t: int| j <= t < orig.len() ==> #[trigger] incoming@[t] == orig[t],
            fields_view(fields@) == merged_fields(dm, fields_view(orig.take(j as int))),
        decreases orig.len() - j,
    {
        let ghost im = fields_view(orig.take(j as int));
        let ghost k = orig[j as int].0@;
        proof {
            assert(orig.take(j as int + 1).drop_last() =~= orig.take(j as int));
            lemma_fields_view_last(orig.take(j as int + 1));
            lemma_fields_view_dom(orig.take(j as int), k);
        }
        let first = find_field(&incoming, &incoming[j].0);
        if first == Some(j) {
            assert(!im.contains_key(k)) by {
                if im.contains_key(k) {
                    let t = choose|t: int| 0 <= t < j && orig.take(j as int)[t].0@ == k;
                    assert(incoming@[t].0@ == k);
                }
            }
            let mut v = Tree::Null;
            std::mem::swap(&mut incoming[j].1, &mut v);
            let key = incoming[j].0.clone();
            let ghost im2 = im.insert(k, v@);
            let ghost target = merged_field(if dm.contains_key(k) { Some(dm[k]) } else { None }, v@);
            assert(merged_fields(dm, im2) =~= merged_fields(dm, im).insert(k, target));
            match find_field(fields, &key) {
                Some(p) => {
                    proof {
                        lemma_fields_view_first(fields@, k, p as int);
                    }
                    let ghost pre = fields@;
                    let mut cur = Tree::Null;
                    std::mem::swap(&mut fields[p].1, &mut cur);
                    let joined = match (cur, v) {
                        (Tree::Array(mut a), Tree::Array(mut b)) => {
                            let ghost a0 = a@;
                            let ghost b0 = b@;
                            a.append(&mut b);
                            proof {
                                lemma_items_view_add(a0, b0);
                            }
                            Tree::Array(a)
                        },
                        (mut cur, v) => {
                            proof {
                                assert(decreases_to!(given => given@));
                            }
                            merge(&mut cur, v);
                            cur
                        },
                    };
                    let ghost moved = (key, joined);
                    fields.set(p, (key, joined));
                    proof {
                        assert(fields@ =~= pre.update(p as int, moved));
                        lemma_fields_view_update(pre, k, p as int, moved);
                    }
                },
                None => {
                    proof {
                        lemma_fields_view_dom(fields@, k);
                    }
                    let ghost before = fields@;
                    fields.push((key, v));
                    proof {
                        assert(fields@.drop_last() =~= before);
                        lemma_fields_view_last(fields@);
                    }
                },
            }
        } else {
            assert(im.contains_key(k)) by {
                match first {
                    Some(p) => {
                        assert(orig.take(j as int)[p as int].0@ == k);
                    },
                    None => {},
                }
            }
        }
        j = j + 1;
    }
    assert(orig.take(orig.len() as int) =~= orig);
}


/// Whether no field name that both maps hold leads, on both sides, to two
/// objects or to two arrays.
pub open spec fn no_nested_overlap(dm: Map<Seq<char>, TreeView>, im: Map<Seq<char>, TreeView>) -> bool {
    forall|k: Seq<char>|
        dm.contains_key(k) && im.contains_key(k) ==> !(dm[k] is Object && im[k] is Object) && !(
        dm[k] is Array && im[k] is Array)
}

/// When two arrays stand under one field name of the default and the incoming
/// object, the merged field is the default array followed by the incoming
/// one: nothing dropped, nothing reordered, nothing merged away.
pub proof fn lemma_array_accumulation(
    dm: Map<Seq<char>, TreeView>,
    im: Map<Seq<char>, TreeView>,
    k: Seq<char>,
)
    requires
        dm.contains_key(k),
        im.contains_key(k),
        dm[k] is Array,
        im[k] is Array,
    ensures
        merged(TreeView::Object(dm), TreeView::Object(im)) is Object,
        merged_fields(dm, im).contains_key(k),
        merged_fields(dm, im)[k] == TreeView::Array(dm[k]->Array_0 + im[k]->Array_0),
        merged_fields(dm, im)[k]->Array_0.len() == dm[k]->Array_0.len() + im[k]->Array_0.len(),
{
}

/// Where the two objects never hold objects or arrays on both sides of a
/// field, merging keeps every field of the default and lets every incoming
/// field override it.
pub proof fn lemma_flat_merge(dm: Map<Seq<char>, TreeView>, im: Map<Seq<char>, TreeView>)
    requires
        no_nested_overlap(dm, im),
    ensures
        merged_fields(dm, im) == dm.union_prefer_right(im),
{
    let r = merged_fields(dm, im);
    assert forall|k: Seq<char>| #[trigger] r.contains_key(k) implies r[k] == dm.union_prefer_right(
        im,
    )[k] by {
        if im.contains_key(k) && dm.contains_key(k) {
            assert(merged(dm[k], im[k]) == im[k]);
        }
    }
    assert(r =~= dm.union_prefer_right(im));
}

/// Reading a record stored under fewer fields than the current default has
/// (the incoming fields are a subset): every stored field keeps its stored
/// value and every other field gets its default.
pub proof fn lemma_schema_widening(dm: Map<Seq<char>, TreeView>, im: Map<Seq<char>, TreeView>)
    requires
        im.dom().subset_of(dm.dom()),
        no_nested_overlap(dm, im),
    ensures
        merged_fields(dm, im).dom() == dm.dom(),
        forall|k: Seq<char>| #[trigger] im.contains_key(k) ==> merged_fields(dm, im)[k] == im[k],
        forall|k: Seq<char>|
            dm.contains_key(k) && !im.contains_key(k) ==> #[trigger] merged_fields(dm, im)[k] == dm[k],
{
    lemma_flat_merge(dm, im);
    assert(merged_fields(dm, im).dom() =~= dm.dom());
}

/// Reading a record stored under more fields than the current default has
/// (the default's fields are a subset): every field of the default takes
/// its stored value, and the extra stored fields are carried along as they
/// are, for the final decoding to ignore.
pub proof fn lemma_schema_narrowing(dm: Map<Seq<char>, TreeView>, im: Map<Seq<char>, TreeView>)
    requires
        dm.dom().subset_of(im.dom()),
        no_nested_overlap(dm, im),
    ensures
        merged_fields(dm, im) == im,
        merged_fields(dm, im).restrict(dm.dom()) == im.restrict(dm.dom()),
{
    lemma_flat_merge(dm, im);
    assert(dm.union_prefer_right(im) =~= im);
}

/// Reading a record stored with exactly the fields of the current default:
/// the merge gives back the stored record as it is.
pub proof fn lemma_same_fields_reproduce(dm: Map<Seq<char>, TreeView>, im: Map<Seq<char>, TreeView>)
    requires
        dm.dom() == im.dom(),
        no_nested_overlap(dm, im),
    ensures
        merged(TreeView::Object(dm), TreeView::Object(im)) == TreeView::Object(im),
{
    lemma_schema_narrowing(dm, im);
}

} // verus!
