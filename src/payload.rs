use vstd::prelude::*;

verus! {

/// Name of a payload field.
pub type PayloadKeyType = String;

/// What a payload value is, as the contracts see it: a tagged list of scalars.
pub enum PayloadModel {
    Keyword(Seq<Seq<char>>),
    Integer(Seq<i64>),
}

/// Payload value in the form a segment stores it.
pub enum PayloadType {
    Keyword(Vec<String>),
    Integer(Vec<i64>),
}

/// One scalar or a list of scalars, as callers hand payload in.
pub enum PayloadVariant<V> {
    Value(V),
    List(Vec<V>),
}

/// Payload value as callers hand it in.
pub enum PayloadInterface {
    Keyword(PayloadVariant<String>),
    Integer(PayloadVariant<i64>),
}

pub open spec fn strings_view(v: Seq<String>) -> Seq<Seq<char>> {
    v.map_values(|s: String| s@)
}

impl View for PayloadType {
    type V = PayloadModel;

    open spec fn view(&self) -> PayloadModel {
        match self {
            PayloadType::Keyword(v) => PayloadModel::Keyword(strings_view(v@)),
            PayloadType::Integer(v) => PayloadModel::Integer(v@),
        }
    }
}

impl View for PayloadInterface {
    type V = PayloadModel;

    /// The stored form: a single value becomes a list of one.
    open spec fn view(&self) -> PayloadModel {
        match self {
            PayloadInterface::Keyword(PayloadVariant::Value(s)) => PayloadModel::Keyword(seq![s@]),
            PayloadInterface::Keyword(PayloadVariant::List(l)) => PayloadModel::Keyword(strings_view(l@)),
            PayloadInterface::Integer(PayloadVariant::Value(i)) => PayloadModel::Integer(seq![*i]),
            PayloadInterface::Integer(PayloadVariant::List(l)) => PayloadModel::Integer(l@),
        }
    }
}

pub fn copy_strings(v: &Vec<String>) -> (r: Vec<String>)
    ensures
        strings_view(r@) == strings_view(v@),
{
    let mut r: Vec<String> = Vec::new();
    let mut i: usize = 0;
    while i < v.len()
        invariant
            i <= v.len(),
            r@.len() == i,
            forall|k: int| 0 <= k < i ==> r@[k]@ == v@[k]@,
        decreases v.len() - i,
    {
        r.push(v[i].clone());
        i += 1;
    }
    assert(strings_view(r@) =~= strings_view(v@));
    r
}

pub fn copy_ints(v: &Vec<i64>) -> (r: Vec<i64>)
    ensures
        r@ == v@,
{
    let mut r: Vec<i64> = Vec::new();
    let mut i: usize = 0;
    while i < v.len()
        invariant
            i <= v.len(),
            r@ == v@.subrange(0, i as int),
        decreases v.len() - i,
    {
        r.push(v[i]);
        i += 1;
        assert(r@ =~= v@.subrange(0, i as int));
    }
    assert(r@ =~= v@);
    r
}

pub fn strings_equal(a: &Vec<String>, b: &Vec<String>) -> (r: bool)
    ensures
        r == (strings_view(a@) == strings_view(b@)),
{
    if a.len() != b.len() {
        assert(strings_view(a@).len() != strings_view(b@).len());
        return false;
    }
    let mut i: usize = 0;
    while i < a.len()
        invariant
            i <= a.len(),
            a.len() == b.len(),
            forall|k: int| 0 <= k < i ==> a@[k]@ == b@[k]@,
        decreases a.len() - i,
    {
        if a[i] != b[i] {
            assert(strings_view(a@)[i as int] != strings_view(b@)[i as int]);
            return false;
        }
        i += 1;
    }
    assert(strings_view(a@) =~= strings_view(b@));
    true
}

pub fn ints_equal(a: &Vec<i64>, b: &Vec<i64>) -> (r: bool)
    ensures
        r == (a@ == b@),
{
    if a.len() != b.len() {
        return false;
    }
    let mut i: usize = 0;
    while i < a.len()
        invariant
            i <= a.len(),
            a.len() == b.len(),
            forall|k: int| 0 <= k < i ==> a@[k] == b@[k],
        decreases a.len() - i,
    {
        if a[i] != b[i] {
            return false;
        }
        i += 1;
    }
    assert(a@ =~= b@);
    true
}

impl PayloadType {
    pub fn duplicate(&self) -> (r: PayloadType)
        ensures
            r@ == self@,
    {
        match self {
            PayloadType::Keyword(v) => PayloadType::Keyword(copy_strings(v)),
            PayloadType::Integer(v) => PayloadType::Integer(copy_ints(v)),
        }
    }

    /// Whether two stored values are the same.
    pub fn same_as(&self, other: &PayloadType) -> (r: bool)
        ensures
            r == (self@ == other@),
    {
        match (self, other) {
            (PayloadType::Keyword(a), PayloadType::Keyword(b)) => strings_equal(a, b),
            (PayloadType::Integer(a), PayloadType::Integer(b)) => ints_equal(a, b),
            _ => false,
        }
    }
}

impl PayloadInterface {
    /// The value in the form that a segment stores.
    pub fn to_payload(&self) -> (r: PayloadType)
        ensures
            r@ == self@,
    {
        match self {
            PayloadInterface::Keyword(PayloadVariant::Value(s)) => {
                let r = PayloadType::Keyword(vec![s.clone()]);
                proof {
                    if let PayloadType::Keyword(v) = &r {
                        assert(strings_view(v@) =~= seq![s@]);
                    }
                }
                r
            },
            PayloadInterface::Keyword(PayloadVariant::List(l)) => PayloadType::Keyword(copy_strings(l)),
            PayloadInterface::Integer(PayloadVariant::Value(i)) => {
                let r = PayloadType::Integer(vec![*i]);
                proof {
                    if let PayloadType::Integer(v) = &r {
                        assert(v@ =~= seq![*i]);
                    }
                }
                r
            },
            PayloadInterface::Integer(PayloadVariant::List(l)) => PayloadType::Integer(copy_ints(l)),
        }
    }
}

} // verus!
