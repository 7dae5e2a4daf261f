//! A JSON value held as plain data.
use vstd::prelude::*;

verus! {

/// A JSON value. Numbers are kept as their JSON text; an object keeps its members
/// in order.
#[derive(Debug, PartialEq)]
pub enum Json {
    Null,
    Bool(bool),
    Number(String),
    String(String),
    Array(Vec<Json>),
    Object(Vec<(String, Json)>),
}

/// What a JSON value stands for.
pub enum JsonView {
    Null,
    Bool(bool),
    Number(Seq<char>),
    String(Seq<char>),
    Array(Seq<JsonView>),
    Object(Seq<(Seq<char>, JsonView)>),
}

/// The view of a JSON value.
pub open spec fn json_view(j: Json) -> JsonView
    decreases j,
{
    match j {
        Json::Null => JsonView::Null,
        Json::Bool(b) => JsonView::Bool(b),
        Json::Number(n) => JsonView::Number(n@),
        Json::String(s) => JsonView::String(s@),
        Json::Array(items) => JsonView::Array(
            Seq::new(
                items@.len(),
                |i: int|
                    {
                        if 0 <= i < items@.len() {
                            json_view(items@[i])
                        } else {
                            JsonView::Null
                        }
                    },
            ),
        ),
        Json::Object(members) => JsonView::Object(
            Seq::new(
                members@.len(),
                |i: int|
                    {
                        if 0 <= i < members@.len() {
                            (members@[i].0@, json_view(members@[i].1))
                        } else {
                            (Seq::empty(), JsonView::Null)
                        }
                    },
            ),
        ),
    }
}

impl View for Json {
    type V = JsonView;

    open spec fn view(&self) -> JsonView {
        json_view(*self)
    }
}

/// The index of the first member of `members`, from the `i`-th on, whose key is `key`.
pub open spec fn key_index_from(members: Seq<(Seq<char>, JsonView)>, key: Seq<char>, i: int) -> Option<
    int,
>
    decreases members.len() - i,
{
    if i < 0 || i >= members.len() {
        None
    } else if members[i].0 == key {
        Some(i)
    } else {
        key_index_from(members, key, i + 1)
    }
}

/// The index of the first member of `members` whose key is `key`.
pub open spec fn key_index(members: Seq<(Seq<char>, JsonView)>, key: Seq<char>) -> Option<int> {
    key_index_from(members, key, 0)
}

/// A found key is the key of the member it points at.
pub proof fn lemma_key_index(members: Seq<(Seq<char>, JsonView)>, key: Seq<char>, i: int)
    ensures
        key_index_from(members, key, i) matches Some(j) ==> i <= j < members.len() && members[j].0 == key,
    decreases members.len() - i,
{
    if 0 <= i < members.len() && members[i].0 != key {
        lemma_key_index(members, key, i + 1);
    }
}

/// Whether two strings hold the same text.
pub fn text_eq(a: &str, b: &str) -> (res: bool)
    ensures
        res == (a@ == b@),
{
    let av = crate::text::chars_of(a);
    let bv = crate::text::chars_of(b);
    if av.len() != bv.len() {
        return false;
    }
    let mut i: usize = 0;
    while i < av.len()
        invariant
            av@ == a@,
            bv@ == b@,
            av@.len() == bv@.len(),
            i <= av@.len(),
            forall|j: int| 0 <= j < i ==> av@[j] == bv@[j],
        decreases av@.len() - i,
    {
        if av[i] != bv[i] {
            return false;
        }
        i = i + 1;
    }
    assert(av@ =~= bv@);
    true
}

/// The index of the first member of `members` whose key is `key`.
pub fn find_key(members: &Vec<(String, Json)>, key: &str) -> (res: Option<usize>)
    ensures
        res matches Some(i) ==> i < members@.len(),
        match res {
            Some(i) => key_index(members_view(members@), key@) == Some(i as int),
            None => key_index(members_view(members@), key@) is None,
        },
{
    let ghost ms = members_view(members@);
    let mut i: usize = 0;
    while i < members.len()
        invariant
            ms == members_view(members@),
            i <= members@.len(),
            key_index(ms, key@) == key_index_from(ms, key@, i as int),
        decreases members@.len() - i,
    {
        if text_eq(members[i].0.as_str(), key) {
            return Some(i);
        }
        i = i + 1;
    }
    None
}

/// The view of the members of an object.
pub open spec fn members_view(members: Seq<(String, Json)>) -> Seq<(Seq<char>, JsonView)> {
    Seq::new(members.len(), |i: int| (members[i].0@, members[i].1@))
}

/// The view of the items of an array.
pub open spec fn items_view(items: Seq<Json>) -> Seq<JsonView> {
    Seq::new(items.len(), |i: int| items[i]@)
}

pub proof fn lemma_view_parts(j: Json)
    ensures
        j matches Json::Array(items) ==> j@ == JsonView::Array(items_view(items@)),
        j matches Json::Object(members) ==> j@ == JsonView::Object(members_view(members@)),
{
    match j {
        Json::Array(items) => {
            assert(json_view(j) matches JsonView::Array(v) && v =~= items_view(items@));
        },
        Json::Object(members) => {
            assert(json_view(j) matches JsonView::Object(v) && v =~= members_view(members@));
        },
        _ => {},
    }
}

/// A copy of `v`.
#[verifier::loop_isolation(false)]
pub fn copy_json(v: &Json) -> (res: Json)
    ensures
        res@ == v@,
    decreases v,
{
    proof {
        lemma_view_parts(*v);
    }
    let res = match v {
        Json::Null => Json::Null,
        Json::Bool(b) => Json::Bool(*b),
        Json::Number(n) => Json::Number(crate::text::owned(n.as_str())),
        Json::String(s) => Json::String(crate::text::owned(s.as_str())),
        Json::Array(items) => {
            let out = copy_items(items);
            let res = Json::Array(out);
            proof {
                lemma_view_parts(res);
            }
            res
        },
        Json::Object(members) => {
            let out = copy_members(members);
            let res = Json::Object(out);
            proof {
                lemma_view_parts(res);
            }
            res
        },
    };
    res
}

/// A copy of the items of an array.
#[verifier::loop_isolation(false)]
pub fn copy_items(items: &Vec<Json>) -> (res: Vec<Json>)
    ensures
        items_view(res@) == items_view(items@),
    decreases items,
{
    let mut out: Vec<Json> = Vec::new();
    let mut i: usize = 0;
    while i < items.len()
        invariant
            i <= items@.len(),
            out@.len() == i,
            forall|k: int| 0 <= k < i ==> (#[trigger] out@[k])@ == items@[k]@,
        decreases items@.len() - i,
    {
        out.push(copy_json(&items[i]));
        i = i + 1;
    }
    assert(items_view(out@) =~= items_view(items@));
    out
}

/// A copy of the members of an object.
#[verifier::loop_isolation(false)]
pub fn copy_members(members: &Vec<(String, Json)>) -> (res: Vec<(String, Json)>)
    ensures
        res@.len() == members@.len(),
        members_view(res@) == members_view(members@),
    decreases members,
{
    let mut out: Vec<(String, Json)> = Vec::new();
    let mut i: usize = 0;
    while i < members.len()
        invariant
            i <= members@.len(),
            out@.len() == i,
            forall|k: int| 0 <= k < i ==> (#[trigger] out@[k]).0@ == members@[k].0@ && out@[k].1@ == members@[k].1@,
        decreases members@.len() - i,
    {
        let (k, v) = &members[i];
        out.push((crate::text::owned(k.as_str()), copy_json(v)));
        i = i + 1;
    }
    assert(members_view(out@) =~= members_view(members@));
    out
}

} // verus!
