//! The JSON document tree.
//!
//! Every message on the wire is JSON. The tree below carries a parsed
//! document; numbers keep their literal spelling so that no precision is
//! lost and no floating point enters the tree.

use vstd::prelude::*;

verus! {

/// A JSON document.
///
/// A number is kept as its literal spelling (`Num("1.5")`), an object as
/// its members in textual order.
#[derive(Debug)]
pub enum JsonValue {
    Null,
    Bool(bool),
    Num(String),
    Str(String),
    Arr(Vec<JsonValue>),
    Obj(Vec<(String, JsonValue)>),
}

/// The mathematical shape of a [`JsonValue`]: the same tree over sequences.
pub enum JsonV {
    Null,
    Bool(bool),
    Num(Seq<char>),
    Str(Seq<char>),
    Arr(Seq<JsonV>),
    Obj(Seq<(Seq<char>, JsonV)>),
}

/// The shape of a document: each string replaced by its sequence of characters.
pub open spec fn jv(v: JsonValue) -> JsonV
    decreases v,
{
    match v {
        JsonValue::Null => JsonV::Null,
        JsonValue::Bool(b) => JsonV::Bool(b),
        JsonValue::Num(s) => JsonV::Num(s@),
        JsonValue::Str(s) => JsonV::Str(s@),
        JsonValue::Arr(a) => JsonV::Arr(jv_arr(a@)),
        JsonValue::Obj(m) => JsonV::Obj(jv_obj(m@)),
    }
}

/// The shapes of the elements of an array.
pub open spec fn jv_arr(s: Seq<JsonValue>) -> Seq<JsonV>
    decreases s,
{
    if s.len() == 0 {
        Seq::empty()
    } else {
        jv_arr(s.drop_last()).push(jv(s.last()))
    }
}

/// The shapes of the members of an object.
pub open spec fn jv_obj(s: Seq<(String, JsonValue)>) -> Seq<(Seq<char>, JsonV)>
    decreases s,
{
    if s.len() == 0 {
        Seq::empty()
    } else {
        jv_obj(s.drop_last()).push((s.last().0@, jv(s.last().1)))
    }
}

/// `jv_arr` is the pointwise image of `jv`.
pub broadcast proof fn lemma_jv_arr(s: Seq<JsonValue>)
    ensures
        #[trigger] jv_arr(s).len() == s.len(),
        forall|i: int| 0 <= i < s.len() ==> jv_arr(s)[i] == jv(s[i]),
    decreases s.len(),
{
    if s.len() > 0 {
        lemma_jv_arr(s.drop_last());
    }
}

/// `jv_obj` maps each member to its key's characters and its value's shape.
pub broadcast proof fn lemma_jv_obj(s: Seq<(String, JsonValue)>)
    ensures
        #[trigger] jv_obj(s).len() == s.len(),
        forall|i: int| 0 <= i < s.len() ==> jv_obj(s)[i] == (s[i].0@, jv(s[i].1)),
    decreases s.len(),
{
    if s.len() > 0 {
        lemma_jv_obj(s.drop_last());
    }
}

impl View for JsonValue {
    type V = JsonV;

    open spec fn view(&self) -> JsonV {
        jv(*self)
    }
}

impl DeepView for JsonValue {
    type V = JsonV;

    open spec fn deep_view(&self) -> JsonV {
        jv(*self)
    }
}

impl Clone for JsonValue {
    /// A clone keeps the whole tree: the views agree.
    #[verifier::loop_isolation(false)]
    fn clone(&self) -> (res: Self)
        ensures
            res@ == self@,
        decreases self,
    {
        match self {
            JsonValue::Null => JsonValue::Null,
            JsonValue::Bool(b) => JsonValue::Bool(*b),
            JsonValue::Num(s) => JsonValue::Num(s.clone()),
            JsonValue::Str(s) => JsonValue::Str(s.clone()),
            JsonValue::Arr(a) => {
                let mut out: Vec<JsonValue> = Vec::new();
                let mut i: usize = 0;
                while i < a.len()
                    invariant
                        i <= a.len(),
                        out@.len() == i as int,
                        forall|j: int| 0 <= j < i ==> jv(out@[j]) == jv(a@[j]),
                    decreases a.len() - i,
                {
                    proof {
                        assert(decreases_to!(*self => self->Arr_0));
                        assert(decreases_to!(*a => a[i as int]));
                    }
                    out.push(a[i].clone());
                    i += 1;
                }
                let res = JsonValue::Arr(out);
                proof {
                    broadcast use {lemma_jv_arr};

                    assert(jv_arr(out@) =~= jv_arr(a@));
                }
                res
            }
            JsonValue::Obj(m) => {
                let mut out: Vec<(String, JsonValue)> = Vec::new();
                let mut i: usize = 0;
                while i < m.len()
                    invariant
                        i <= m.len(),
                        out@.len() == i as int,
                        forall|j: int| 0 <= j < i ==> out@[j].0@ == m@[j].0@ && jv(out@[j].1)
                            == jv(m@[j].1),
                    decreases m.len() - i,
                {
                    proof {
                        assert(decreases_to!(*self => self->Obj_0));
                        assert(decreases_to!(*m => m[i as int]));
                        assert(decreases_to!(m[i as int] => m[i as int].1));
                    }
                    let member = &m[i];
                    out.push((member.0.clone(), member.1.clone()));
                    i += 1;
                }
                let res = JsonValue::Obj(out);
                proof {
                    broadcast use {lemma_jv_obj};

                    assert(jv_obj(out@) =~= jv_obj(m@));
                }
                res
            }
        }
    }
}

} // verus!
