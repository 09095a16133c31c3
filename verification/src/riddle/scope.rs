//! Fields and the scopes that hold them.

use vstd::prelude::*;
use vstd::string::StringExecFns;

verus! {

/// A named field of some kind.
pub struct Field {
    /// The name of the kind of the field.
    component_type: String,
    /// The name of the field.
    name: String,
}

impl Field {
    /// The name of the kind of the field.
    pub closed spec fn kind_label(&self) -> Seq<char> {
        self.component_type@
    }

    /// The name of the field.
    pub closed spec fn label(&self) -> Seq<char> {
        self.name@
    }

    /// A field of the kind named `component_type`, called `name`.
    pub fn new(component_type: String, name: &str) -> (f: Field)
        ensures
            f.kind_label() == component_type@,
            f.label() == name@,
    {
        Field { component_type, name: String::from_str(name) }
    }

    /// The name of the kind of the field.
    pub fn component_type(&self) -> (s: &String)
        ensures
            s@ == self.kind_label(),
    {
        &self.component_type
    }

    /// The name of the field.
    pub fn name(&self) -> (s: &str)
        ensures
            s@ == self.label(),
    {
        self.name.as_str()
    }

    /// A copy of the field.
    pub fn duplicate(&self) -> (f: Field)
        ensures
            f.kind_label() == self.kind_label(),
            f.label() == self.label(),
    {
        Field { component_type: self.component_type.clone(), name: self.name.clone() }
    }
}

/// The message of a lookup that found nothing: the sort of thing that was
/// looked up, its name in quotes, and `not found`.
pub open spec fn missing(sort: Seq<char>, key: Seq<char>) -> Seq<char> {
    sort + seq![' ', '\''] + key + seq!['\'', ' ', 'n', 'o', 't', ' ', 'f', 'o', 'u', 'n', 'd']
}

/// The message of a lookup that found nothing.
pub fn missing_message(sort: &str, key: &str) -> (s: String)
    ensures
        s@ == missing(sort@, key@),
{
    let mut s = String::from_str(sort);
    s.append(" '");
    s.append(key);
    s.append("' not found");
    proof {
        reveal_strlit(" '");
        reveal_strlit("' not found");
        assert(s@ =~= missing(sort@, key@));
    }
    s
}

/// The first of the first `n` fields that is called `key`, if there is one.
pub open spec fn lookup(fields: Seq<Field>, key: Seq<char>, n: int) -> Option<int>
    decreases n,
{
    if n <= 0 {
        None
    } else {
        match lookup(fields, key, n - 1) {
            Some(i) => Some(i),
            None => if fields[n - 1].label() == key {
                Some(n - 1)
            } else {
                None
            },
        }
    }
}

/// The place of the first field of `fields` that is called `key`.
pub fn find_field(fields: &Vec<Field>, key: &str) -> (r: Option<usize>)
    ensures
        match r {
            Some(i) => lookup(fields@, key@, fields@.len() as int) == Some(i as int) && i
                < fields@.len() && fields@[i as int].label() == key@,
            None => lookup(fields@, key@, fields@.len() as int).is_none(),
        },
{
    let wanted = String::from_str(key);
    let n = fields.len();
    let mut i: usize = 0;
    while i < n
        invariant
            i <= n,
            n == fields@.len(),
            wanted@ == key@,
            lookup(fields@, key@, i as int).is_none(),
        decreases n - i,
    {
        if fields[i].name == wanted {
            proof {
                lemma_lookup_found(fields@, key@, i as int, n as int);
            }
            return Some(i);
        }
        i += 1;
    }
    None
}

/// A field found among the first fields is the one found among all.
pub proof fn lemma_lookup_found(fields: Seq<Field>, key: Seq<char>, i: int, n: int)
    requires
        0 <= i < n,
        lookup(fields, key, i).is_none(),
        fields[i].label() == key,
    ensures
        lookup(fields, key, n) == Some(i),
    decreases n - i,
{
    if i + 1 < n {
        lemma_lookup_found(fields, key, i, n - 1);
    }
}

/// What fields can be looked up in.
pub trait Scope {
    /// The fields of the scope, in the order of their declaration.
    spec fn fields(&self) -> Seq<Field>;

    /// The field called `key`: the first of that name, or a message that
    /// none was found.
    fn field(&self, key: &str) -> (r: Result<Field, String>)
        ensures
            match r {
                Ok(f) => match lookup(self.fields(), key@, self.fields().len() as int) {
                    Some(i) => f.label() == self.fields()[i].label() && f.kind_label()
                        == self.fields()[i].kind_label(),
                    None => false,
                },
                Err(msg) => lookup(self.fields(), key@, self.fields().len() as int).is_none()
                    && msg@ == missing("Field"@, key@),
            },
    ;
}

} // verus!
