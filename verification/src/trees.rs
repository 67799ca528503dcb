//! The trees table.

use vstd::prelude::*;
use crate::models::Tree;
use crate::batches::opt_text;

verus! {

/// One tree of the trees table, and whether it is the one being edited in
/// place.
pub struct TreeRow {
    pub tree: Tree,
    pub editing: bool,
}

/// A tree by the views of its fields.
pub open spec fn tree_view(t: Tree) -> (
    i64,
    Seq<char>,
    Option<Seq<char>>,
    Option<Seq<char>>,
    Option<Seq<char>>,
    Option<Seq<char>>,
) {
    (t.id, t.name@, opt_text(t.variety), opt_text(t.planted_on), opt_text(t.location), opt_text(t.notes))
}

fn copy_opt(t: &Option<String>) -> (r: Option<String>)
    ensures
        opt_text(r) == opt_text(*t),
{
    match t {
        Some(s) => Some(s.clone()),
        None => None,
    }
}

/// The trees table in the order given, with the tree `editing_id` (if
/// any) open for editing.
pub fn tree_rows(trees: &[Tree], editing_id: Option<i64>) -> (rows: Vec<TreeRow>)
    ensures
        rows@.len() == trees@.len(),
        forall|i: int|
            0 <= i < trees@.len() ==> {
                let r = #[trigger] rows@[i];
                &&& tree_view(r.tree) == tree_view(trees@[i])
                &&& r.editing == (editing_id == Some(trees@[i].id))
            },
{
    let mut rows: Vec<TreeRow> = Vec::new();
    let mut i: usize = 0;
    while i < trees.len()
        invariant
            0 <= i <= trees@.len(),
            rows@.len() == i,
            forall|q: int|
                0 <= q < i ==> {
                    let r = #[trigger] rows@[q];
                    &&& tree_view(r.tree) == tree_view(trees@[q])
                    &&& r.editing == (editing_id == Some(trees@[q].id))
                },
        decreases trees@.len() - i,
    {
        let t = &trees[i];
        let tree = Tree {
            id: t.id,
            name: t.name.clone(),
            variety: copy_opt(&t.variety),
            planted_on: copy_opt(&t.planted_on),
            location: copy_opt(&t.location),
            notes: copy_opt(&t.notes),
        };
        let editing = match editing_id {
            Some(e) => e == t.id,
            None => false,
        };
        rows.push(TreeRow { tree, editing });
        i = i + 1;
    }
    rows
}

} // verus!
