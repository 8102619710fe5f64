//! The storage engine as the server sees it.

use crate::blob::{bytes_content, contents};
use crate::store_model::{value_index, values, StoreView};
use crate::types::{Dot, VersionVector};
use bytes::Bytes;
use vstd::prelude::*;

verus! {

/// A failure of the store that holds the rows.
#[derive(Debug, PartialEq, Eq)]
pub struct StorageError {
    pub message: String,
}

impl Clone for StorageError {
    fn clone(&self) -> (r: Self)
        ensures
            r == *self,
    {
        StorageError { message: self.message.clone() }
    }
}

/// Whether each of `vs` has a row in `elems`, place by place.
pub open spec fn membership(elems: Seq<crate::store_model::ElementView>, vs: Seq<Seq<u8>>) -> Seq<
    bool,
> {
    Seq::new(vs.len(), |i: int| value_index(elems, vs[i]) >= 0)
}

/// A store of sets, their elements and the dots that support them, and of
/// the version vector.
///
/// Each writing operation is one transaction: it happens as a whole, with
/// the update of the version vector, or it fails and leaves the store as it
/// was. The contracts say what the store holds afterwards; they hold of an
/// implementation only as far as it has been verified against them.
pub trait Storage {
    /// What the store holds. A verified implementation says what that is;
    /// of another implementation nothing is known but what the contracts
    /// claim.
    spec fn view(&self) -> StoreView;

    /// Reads the version vector.
    fn load_vv(&self) -> (r: Result<VersionVector, StorageError>)
        requires
            self.view().wf(),
        ensures
            r matches Ok(vv) ==> vv@ == self.view().vv,
    ;

    /// A local add of `elements` to the set under the new dot `dot`. Returns
    /// the dots that the add displaced.
    fn add_elements(&mut self, set_name: &str, elements: &[Bytes], dot: Dot) -> (r: Result<
        Vec<Dot>,
        StorageError,
    >)
        requires
            old(self).view().wf(),
        ensures
            match r {
                Ok(displaced) => {
                    &&& final(self).view() == old(self).view().add_elements(
                        set_name@,
                        contents(elements@),
                        dot,
                    )
                    &&& displaced@ == old(self).view().add_elements_displaced(
                        set_name@,
                        contents(elements@),
                        dot,
                    )
                },
                Err(_) => final(self).view() == old(self).view(),
            },
    ;

    /// A local remove of `elements` from the set; `dot` is the dot of the
    /// remove. Returns the dots that supported the elements.
    fn remove_elements(&mut self, set_name: &str, elements: &[Bytes], dot: Dot) -> (r: Result<
        Vec<Dot>,
        StorageError,
    >)
        requires
            old(self).view().wf(),
        ensures
            match r {
                Ok(displaced) => {
                    &&& final(self).view() == old(self).view().remove_elements(
                        set_name@,
                        contents(elements@),
                        dot,
                    )
                    &&& displaced@ == old(self).view().remove_elements_displaced(
                        set_name@,
                        contents(elements@),
                    )
                },
                Err(_) => final(self).view() == old(self).view(),
            },
    ;

    /// An add made at another replica.
    fn replicate_add(&mut self, set_name: &str, elements: &[Bytes], removed_dots: &[Dot], dot: Dot) -> (r:
        Result<(), StorageError>)
        requires
            old(self).view().wf(),
        ensures
            match r {
                Ok(_) => final(self).view() == old(self).view().replicate_add(
                    set_name@,
                    contents(elements@),
                    removed_dots@,
                    dot,
                ),
                Err(_) => final(self).view() == old(self).view(),
            },
    ;

    /// A remove made at another replica.
    fn replicate_remove(
        &mut self,
        set_name: &str,
        elements: &[Bytes],
        removed_dots: &[Dot],
        dot: Dot,
    ) -> (r: Result<(), StorageError>)
        requires
            old(self).view().wf(),
        ensures
            match r {
                Ok(_) => final(self).view() == old(self).view().replicate_remove(
                    set_name@,
                    contents(elements@),
                    removed_dots@,
                    dot,
                ),
                Err(_) => final(self).view() == old(self).view(),
            },
    ;

    /// The elements of a set, in the order of their rows.
    fn get_elements(&self, set_name: &str) -> (r: Result<Vec<Bytes>, StorageError>)
        requires
            self.view().wf(),
        ensures
            r matches Ok(elements) ==> contents(elements@) == values(self.view().elements(set_name@)),
    ;

    /// The number of elements of a set.
    fn count_elements(&self, set_name: &str) -> (r: Result<u64, StorageError>)
        requires
            self.view().wf(),
        ensures
            r matches Ok(n) ==> n == self.view().elements(set_name@).len(),
    ;

    /// Whether `element` is in the set.
    fn is_member(&self, set_name: &str, element: &Bytes) -> (r: Result<bool, StorageError>)
        requires
            self.view().wf(),
        ensures
            r matches Ok(b) ==> b == (value_index(
                self.view().elements(set_name@),
                bytes_content(*element),
            ) >= 0),
    ;

    /// Whether each of `elements` is in the set, place by place.
    fn are_members(&self, set_name: &str, elements: &[Bytes]) -> (r: Result<Vec<bool>, StorageError>)
        requires
            self.view().wf(),
        ensures
            r matches Ok(bs) ==> bs@ == membership(
                self.view().elements(set_name@),
                contents(elements@),
            ),
    ;
}

} // verus!
