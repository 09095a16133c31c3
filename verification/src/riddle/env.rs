//! Components: objects that hold other objects by name.

use crate::riddle::objects::Object;
use crate::riddle::scope::missing_message;
use crate::riddle::scope::missing;
use vstd::prelude::*;
use vstd::string::StringExecFns;

verus! {

/// An instance of a declared kind: its items by name, in the order in
/// which they were given.
pub struct Component {
    /// The name of the kind.
    component_type: String,
    items: Vec<(String, Object)>,
}

/// The first of the first `n` names that is `key`, if there is one.
pub open spec fn place_of(names: Seq<Seq<char>>, key: Seq<char>, n: int) -> Option<int>
    decreases n,
{
    if n <= 0 {
        None
    } else {
        match place_of(names, key, n - 1) {
            Some(i) => Some(i),
            None => if names[n - 1] == key {
                Some(n - 1)
            } else {
                None
            },
        }
    }
}

/// A name found among the first names is the one found among all.
pub proof fn lemma_place_found(names: Seq<Seq<char>>, key: Seq<char>, i: int, n: int)
    requires
        0 <= i < n,
        place_of(names, key, i).is_none(),
        names[i] == key,
    ensures
        place_of(names, key, n) == Some(i),
    decreases n - i,
{
    if i + 1 < n {
        lemma_place_found(names, key, i, n - 1);
    }
}

/// What objects can be looked up in by name.
pub trait Env {
    /// The names of the items, in order.
    spec fn names(&self) -> Seq<Seq<char>>;

    /// The place of the item called `key`: that of the first of that
    /// name, or a message that none was found.
    fn get(&self, key: &str) -> (r: Result<usize, String>)
        ensures
            match r {
                Ok(i) => place_of(self.names(), key@, self.names().len() as int) == Some(i as int),
                Err(msg) => place_of(self.names(), key@, self.names().len() as int).is_none()
                    && msg@ == missing("Item"@, key@),
            },
    ;
}

impl Component {
    /// The name of the kind of the component.
    pub closed spec fn kind_label(&self) -> Seq<char> {
        self.component_type@
    }

    /// The number of items.
    pub closed spec fn len(&self) -> nat {
        self.items@.len()
    }

    /// The item at place `i`.
    pub closed spec fn item(&self, i: int) -> Object {
        self.items@[i].1
    }

    /// A component of the kind named `component_type` with the given items.
    pub fn new(component_type: String, items: Vec<(String, Object)>) -> (c: Component)
        ensures
            c.kind_label() == component_type@,
            c.len() == items@.len(),
            c.names() == Seq::new(items@.len(), |i: int| items@[i].0@),
            forall|i: int| 0 <= i < items@.len() ==> #[trigger] c.item(i) == items@[i].1,
    {
        let c = Component { component_type, items };
        assert(c.names() =~= Seq::new(items@.len(), |i: int| items@[i].0@));
        c
    }

    /// The name of the kind of the component.
    pub fn kind_name(&self) -> (s: String)
        ensures
            s@ == self.kind_label(),
    {
        self.component_type.clone()
    }

    /// The item at place `i`.
    pub fn item_at(&self, i: usize) -> (o: &Object)
        requires
            i < self.len(),
        ensures
            *o == self.item(i as int),
    {
        &self.items[i].1
    }
}

impl Env for Component {
    closed spec fn names(&self) -> Seq<Seq<char>> {
        Seq::new(self.items@.len(), |i: int| self.items@[i].0@)
    }

    fn get(&self, key: &str) -> (r: Result<usize, String>) {
        let wanted = String::from_str(key);
        let n = self.items.len();
        let mut i: usize = 0;
        while i < n
            invariant
                i <= n,
                n == self.items@.len(),
                n == self.names().len(),
                wanted@ == key@,
                place_of(self.names(), key@, i as int).is_none(),
            decreases n - i,
        {
            if self.items[i].0 == wanted {
                proof {
                    lemma_place_found(self.names(), key@, i as int, n as int);
                }
                return Ok(i);
            }
            i += 1;
        }
        Err(missing_message("Item", key))
    }
}

} // verus!
