use vstd::prelude::*;

verus! {

/// The semi-structured tree: what a stored document decodes to before it
/// is read as a typed value.
///
/// An object is a list of named fields. Where a name occurs more than once,
/// its first occurrence is the one that counts.
#[derive(Debug, PartialEq)]
pub enum Tree {
    Null,
    Bool(bool),
    /// A number, held as the text that the codec writes for it.
    Number(String),
    Str(String),
    Array(Vec<Tree>),
    Object(Vec<(String, Tree)>),
}

/// The mathematical model of a [`Tree`]: objects are maps from field name
/// to node, with no order.
pub ghost enum TreeView {
    Null,
    Bool(bool),
    Number(Seq<char>),
    Str(Seq<char>),
    Array(Seq<TreeView>),
    Object(Map<Seq<char>, TreeView>),
}

/// The models of a sequence of trees, element by element.
pub open spec fn items_view(s: Seq<Tree>) -> Seq<TreeView>
    decreases s,
{
    if s.len() == 0 {
        Seq::empty()
    } else {
        items_view(s.drop_last()).push(s.last().view())
    }
}

/// The map that a list of fields stands for; the first field of a name wins.
pub open spec fn fields_view(s: Seq<(String, Tree)>) -> Map<Seq<char>, TreeView>
    decreases s,
{
    if s.len() == 0 {
        Map::empty()
    } else {
        let m = fields_view(s.drop_last());
        if m.contains_key(s.last().0@) {
            m
        } else {
            m.insert(s.last().0@, s.last().1.view())
        }
    }
}

impl View for Tree {
    type V = TreeView;

    open spec fn view(&self) -> TreeView
        decreases self,
    {
        match self {
            Tree::Null => TreeView::Null,
            Tree::Bool(b) => TreeView::Bool(*b),
            Tree::Number(n) => TreeView::Number(n@),
            Tree::Str(s) => TreeView::Str(s@),
            Tree::Array(v) => TreeView::Array(items_view(v@)),
            Tree::Object(v) => TreeView::Object(fields_view(v@)),
        }
    }
}

/// Whether `p` is the first position of a field named `k` in `s`.
pub open spec fn first_field(s: Seq<(String, Tree)>, k: Seq<char>, p: int) -> bool {
    &&& 0 <= p < s.len()
    &&& s[p].0@ == k
    &&& forall|j: int| 0 <= j < p ==> s[j].0@ != k
}

/// The last field counts unless an earlier one has its name.
pub proof fn lemma_fields_view_last(s: Seq<(String, Tree)>)
    requires
        s.len() > 0,
    ensures
        ({
            let m = fields_view(s.drop_last());
            fields_view(s) == if m.contains_key(s.last().0@) {
                m
            } else {
                m.insert(s.last().0@, s.last().1@)
            }
        }),
{
}

/// A name is a field of the map exactly when some field of the list has it.
pub proof fn lemma_fields_view_dom(s: Seq<(String, Tree)>, k: Seq<char>)
    ensures
        fields_view(s).contains_key(k) <==> exists|j: int| 0 <= j < s.len() && s[j].0@ == k,
    decreases s.len(),
{
    if s.len() > 0 {
        lemma_fields_view_dom(s.drop_last(), k);
        lemma_fields_view_last(s);
        if exists|j: int| 0 <= j < s.len() && s[j].0@ == k {
            let j = choose|j: int| 0 <= j < s.len() && s[j].0@ == k;
            if j < s.len() - 1 {
                assert(s.drop_last()[j].0@ == k);
            }
        }
        if fields_view(s.drop_last()).contains_key(k) {
            let j = choose|j: int| 0 <= j < s.len() - 1 && s.drop_last()[j].0@ == k;
            assert(s[j].0@ == k);
        }
    }
}

/// The map holds, under a name, the node of the first field of that name.
pub proof fn lemma_fields_view_first(s: Seq<(String, Tree)>, k: Seq<char>, p: int)
    requires
        first_field(s, k, p),
    ensures
        fields_view(s).contains_key(k),
        fields_view(s)[k] == s[p].1@,
    decreases s.len(),
{
    lemma_fields_view_last(s);
    if p < s.len() - 1 {
        lemma_fields_view_first(s.drop_last(), k, p);
    } else {
        lemma_fields_view_dom(s.drop_last(), k);
    }
}

/// Replacing the first field of a name replaces that name's node.
pub proof fn lemma_fields_view_update(s: Seq<(String, Tree)>, k: Seq<char>, p: int, f: (String, Tree))
    requires
        first_field(s, k, p),
        f.0@ == k,
    ensures
        fields_view(s.update(p, f)) == fields_view(s).insert(k, f.1@),
    decreases s.len(),
{
    let u = s.update(p, f);
    lemma_fields_view_last(s);
    lemma_fields_view_last(u);
    if p < s.len() - 1 {
        lemma_fields_view_update(s.drop_last(), k, p, f);
        assert(u.drop_last() =~= s.drop_last().update(p, f));
        lemma_fields_view_first(s.drop_last(), k, p);
        assert(fields_view(u) =~= fields_view(s).insert(k, f.1@));
    } else {
        assert(u.drop_last() =~= s.drop_last());
        lemma_fields_view_dom(s.drop_last(), k);
        assert(fields_view(u) =~= fields_view(s).insert(k, f.1@));
    }
}

/// The position of the first field named `k`, if any.
pub(crate) fn find_field(fields: &Vec<(String, Tree)>, k: &String) -> (r: Option<usize>)
    ensures
        match r {
            Some(p) => first_field(fields@, k@, p as int),
            None => forall|j: int| 0 <= j < fields@.len() ==> fields@[j].0@ != k@,
        },
{
    let mut p: usize = 0;
    while p < fields.len()
        invariant
            p <= fields@.len(),
            forall|j: int| 0 <= j < p ==> fields@[j].0@ != k@,
        decreases fields@.len() - p,
    {
        if fields[p].0 == *k {
            return Some(p);
        }
        p = p + 1;
    }
    None
}

impl Tree {
    /// The node under the field `name`, where this is an object that has it.
    pub fn field(&self, name: &str) -> (r: Option<&Tree>)
        ensures
            match self@ {
                TreeView::Object(m) => match r {
                    Some(t) => m.contains_key(name@) && t@ == m[name@],
                    None => !m.contains_key(name@),
                },
                _ => r is None,
            },
    {
        match self {
            Tree::Object(fields) => {
                let key = name.to_string();
                match find_field(fields, &key) {
                    Some(p) => {
                        proof {
                            lemma_fields_view_first(fields@, key@, p as int);
                        }
                        Some(&fields[p].1)
                    },
                    None => {
                        proof {
                            lemma_fields_view_dom(fields@, key@);
                        }
                        None
                    },
                }
            },
            _ => None,
        }
    }
}

/// The models of two joined sequences are the two models joined.
pub proof fn lemma_items_view_add(a: Seq<Tree>, b: Seq<Tree>)
    ensures
        items_view(a + b) == items_view(a) + items_view(b),
    decreases b.len(),
{
    if b.len() == 0 {
        assert(a + b =~= a);
        assert(items_view(a) + items_view(b) =~= items_view(a));
    } else {
        lemma_items_view_add(a, b.drop_last());
        assert(items_view(a + b) == items_view((a + b).drop_last()).push((a + b).last()@));
        assert((a + b).drop_last() =~= a + b.drop_last());
        assert(items_view(a + b) =~= items_view(a) + items_view(b));
    }
}

} // verus!
