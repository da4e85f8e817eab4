//! Identifiers of data examples, and loaders that hand out the examples.
use vstd::prelude::*;

use crate::error::{GEPAError, Result};
use crate::json_text::{json_string, json_string_text, json_strings_differ};
use crate::keyed::{views, MapKey};
use crate::text::{decimal, decimal_text, decimals_differ};

verus! {

/// What every identifier of a data example offers.
///
/// Concrete identifiers are typically `usize` (a position) or `String` (a name).
pub trait DataId: MapKey + Send + Sync {
    /// The JSON text of the identifier with the view `v`.
    spec fn json_spec(v: Self::V) -> Seq<char>;

    /// The JSON text tells which identifier it is.
    proof fn json_texts_differ(v: Self::V, w: Self::V)
        requires
            Self::json_spec(v) == Self::json_spec(w),
        ensures
            v == w,
    ;

    /// The JSON text of this identifier.
    fn json_text(&self) -> (text: String)
        ensures
            text@ == Self::json_spec(self@),
    ;

    /// How the identifier with the view `v` is written for debugging.
    spec fn debug_spec(v: Self::V) -> Seq<char>;

    /// This identifier as it is written for debugging.
    fn debug_text(&self) -> (text: String)
        ensures
            text@ == Self::debug_spec(self@),
    ;
}

/// How a string is written for debugging.
pub uninterp spec fn debug_string_text(s: Seq<char>) -> Seq<char>;

/// `format!` with `{:?}` on a string: the text depends on the string alone.
#[verifier::external_body]
fn write_debug_string(s: &String) -> (text: String)
    ensures
        text@ == debug_string_text(s@),
{
    format!("{:?}", s)
}

impl DataId for usize {
    open spec fn json_spec(v: usize) -> Seq<char> {
        decimal_text(v as nat)
    }

    proof fn json_texts_differ(v: usize, w: usize) {
        decimals_differ(v as nat, w as nat);
    }

    fn json_text(&self) -> (text: String) {
        decimal(*self as u64)
    }

    open spec fn debug_spec(v: usize) -> Seq<char> {
        decimal_text(v as nat)
    }

    fn debug_text(&self) -> (text: String) {
        decimal(*self as u64)
    }
}

impl DataId for String {
    open spec fn json_spec(v: Seq<char>) -> Seq<char> {
        json_string_text(v)
    }

    proof fn json_texts_differ(v: Seq<char>, w: Seq<char>) {
        json_strings_differ(v, w, seq![], seq![]);
    }

    fn json_text(&self) -> (text: String) {
        json_string(self.as_str())
    }

    open spec fn debug_spec(v: Seq<char>) -> Seq<char> {
        debug_string_text(v)
    }

    fn debug_text(&self) -> (text: String) {
        write_debug_string(self)
    }
}

/// Hands out data examples by their identifiers.
pub trait DataLoader<Id: DataId, Item>: Send + Sync {
    /// The identifiers that are available, in order: none, unless an impl says
    /// which.
    open spec fn ids(&self) -> Seq<Id::V> {
        Seq::empty()
    }

    /// Whether `item` is a copy of the example `id`: anything may be, unless an
    /// impl says more.
    open spec fn holds(&self, id: Id::V, item: Item) -> bool {
        true
    }

    /// The identifiers that are available, in order.
    fn all_ids(&self) -> (list: Vec<Id>)
        ensures
            views(list@) == self.ids(),
    ;

    /// The examples with the identifiers `ids`, in that order.
    ///
    /// # Errors
    /// An error if an identifier is not available.
    fn fetch(&self, ids: &[Id]) -> (r: Result<Vec<Item>>)
        ensures
            r is Ok <==> forall|i: int|
                0 <= i < ids@.len() ==> self.ids().contains(#[trigger] views(ids@)[i]),
            r matches Ok(items) ==> {
                &&& items@.len() == ids@.len()
                &&& forall|i: int| 0 <= i < ids@.len() ==> self.holds(ids@[i]@, #[trigger] items@[i])
            },
    ;

    /// The number of examples.
    fn len(&self) -> (n: usize)
        ensures
            n == self.ids().len(),
    ;

    /// Whether there is no example.
    fn is_empty(&self) -> (b: bool)
        ensures
            b == (self.ids().len() == 0),
    {
        self.len() == 0
    }
}

/// A [`DataLoader`] that more examples can be added to.
pub trait MutableDataLoader<Id: DataId, Item>: DataLoader<Id, Item> {
    /// Add `items` at the end, under new identifiers.
    fn add_items(&mut self, items: Vec<Item>)
        ensures
            old(self).ids().is_prefix_of(final(self).ids()),
            final(self).ids().len() == old(self).ids().len() + items@.len(),
    ;
}

/// A loader in memory. The identifiers are the positions `0, 1, 2, ..`.
#[derive(Debug, Clone)]
pub struct VecLoader<T> {
    items: Vec<T>,
}

impl<T> View for VecLoader<T> {
    type V = Seq<T>;

    closed spec fn view(&self) -> Seq<T> {
        self.items@
    }
}

impl<T> VecLoader<T> {
    /// A loader of `items`.
    pub fn new(items: Vec<T>) -> (loader: Self)
        ensures
            loader@ == items@,
    {
        VecLoader { items }
    }

    /// The examples.
    pub fn as_slice(&self) -> (items: &[T])
        ensures
            items@ == self@,
    {
        self.items.as_slice()
    }
}

/// The first position at or after `i` at which `ids` holds no index below `n`.
pub open spec fn first_out_of_range(ids: Seq<usize>, n: nat, i: int) -> Option<int>
    decreases ids.len() - i,
{
    if i < 0 || i >= ids.len() {
        None
    } else if ids[i] >= n {
        Some(i)
    } else {
        first_out_of_range(ids, n, i + 1)
    }
}

impl<T: Clone + Send + Sync> DataLoader<usize, T> for VecLoader<T> {
    open spec fn ids(&self) -> Seq<usize> {
        Seq::new(self@.len(), |i: int| i as usize)
    }

    open spec fn holds(&self, id: usize, item: T) -> bool {
        id < self@.len() && cloned(self@[id as int], item)
    }

    fn all_ids(&self) -> (list: Vec<usize>)
        ensures
            forall|i: int| 0 <= i < list@.len() ==> list@[i] == i,
    {
        let n: usize = self.items.len();
        let mut list: Vec<usize> = Vec::new();
        let mut i: usize = 0;
        while i < n
            invariant
                i <= n,
                list@.len() == i,
                forall|j: int| 0 <= j < i ==> list@[j] == j,
            decreases n - i,
        {
            list.push(i);
            i += 1;
        }
        assert(views(list@) =~= self.ids());
        list
    }

    fn fetch(&self, ids: &[usize]) -> (r: Result<Vec<T>>)
        ensures
            match r {
                Ok(_) => first_out_of_range(ids@, self@.len(), 0) is None,
                Err(e) => first_out_of_range(ids@, self@.len(), 0) matches Some(k) && e matches GEPAError::Config(text) && text@
                    == "VecLoader: index "@ + decimal_text(ids@[k] as nat)
                    + " out of range (len="@ + decimal_text(self@.len()) + ")"@,
            },
    {
        let mut items: Vec<T> = Vec::new();
        let mut i: usize = 0;
        while i < ids.len()
            invariant
                i <= ids@.len(),
                items@.len() == i,
                forall|j: int| 0 <= j < i ==> self.holds(ids@[j]@, #[trigger] items@[j]),
                forall|j: int| 0 <= j < i ==> self.ids().contains(#[trigger] views(ids@)[j]),
                first_out_of_range(ids@, self@.len(), 0) == first_out_of_range(
                    ids@,
                    self@.len(),
                    i as int,
                ),
            decreases ids@.len() - i,
        {
            let id: usize = ids[i];
            if id >= self.items.len() {
                let mut text = "VecLoader: index ".to_owned();
                text.append(decimal(id as u64).as_str());
                text.append(" out of range (len=");
                text.append(decimal(self.items.len() as u64).as_str());
                text.append(")");
                proof {
                    assert(!self.ids().contains(views(ids@)[i as int]));
                }
                return Err(GEPAError::Config(text));
            }
            assert(self.ids()[id as int] == views(ids@)[i as int]);
            items.push(self.items[id].clone());
            i += 1;
        }
        Ok(items)
    }

    fn len(&self) -> (n: usize) {
        self.items.len()
    }
}

impl<T: Clone + Send + Sync> MutableDataLoader<usize, T> for VecLoader<T> {
    fn add_items(&mut self, items: Vec<T>)
        ensures
            final(self)@ == old(self)@ + items@,
    {
        let mut items = items;
        let ghost before = self@;
        self.items.append(&mut items);
        assert(self.ids().take(before.len() as int) =~= old(self).ids());
    }
}

/// A loader of `items`.
pub fn ensure_loader<T>(items: Vec<T>) -> (loader: VecLoader<T>)
    ensures
        loader@ == items@,
{
    VecLoader::new(items)
}

} // verus!
