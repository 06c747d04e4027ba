//! The persistent store and the collection-level operations.
//!
//! The store maps the whole record collection to and from the content of one
//! backing file: a load reads everything, a save replaces everything, and
//! there is no partial update. File reading and writing live outside the
//! library; the functions here take the file's content (or its absence) and
//! produce the exact content to persist. Each collection operation applies
//! one logical change to one record and provably leaves every other record
//! untouched; a rejected change provably leaves the whole collection as it
//! was, so no write need occur.

use vstd::prelude::*;
use crate::ice::{Ice, IceV};
use crate::errors::{StoreError, ValidationError, DisarmOutcome};
use crate::stamp::{Stamp, stamp_lt};
use crate::codec::{pfile, rrecords, parse_ices, render_ices, lemma_pfile_round};

verus! {

/// Loads a collection from the store file's content; `None` stands for a
/// missing file, reported as the distinct `NotFound` outcome. Content is
/// accepted exactly when it is the canonical rendering of some collection;
/// anything else is `Corrupt`, never a silently empty collection.
pub fn load_ices(content: Option<&str>) -> (r: Result<Vec<Ice>, StoreError>)
    ensures
        match r {
            Ok(v) => content is Some && pfile(content->Some_0@) == Some(v.deep_view())
                && content->Some_0@ == rrecords(v.deep_view()) && (forall|k: int|
                #![auto]
                0 <= k < v@.len() ==> v@[k]@.inv()),
            Err(e) => match content {
                None => e == StoreError::NotFound,
                Some(c) => e == StoreError::Corrupt && pfile(c@) is None,
            },
        },
{
    match content {
        None => Err(StoreError::NotFound),
        Some(c) => parse_ices(c),
    }
}

/// Loads as `load_ices` does, but a missing file stands for the empty
/// collection, ready to be created on the first save. Corrupt content is
/// still refused: present data is never silently replaced by nothing.
pub fn load_or_init(content: Option<&str>) -> (r: Result<Vec<Ice>, StoreError>)
    ensures
        match r {
            Ok(v) => (match content {
                None => v@.len() == 0,
                Some(c) => pfile(c@) == Some(v.deep_view()) && c@ == rrecords(v.deep_view()),
            }) && (forall|k: int| #![auto] 0 <= k < v@.len() ==> v@[k]@.inv()),
            Err(e) => content is Some && e == StoreError::Corrupt && pfile(content->Some_0@)
                is None,
        },
{
    match content {
        None => Ok(Vec::new()),
        Some(c) => parse_ices(c),
    }
}

/// Renders the collection into the exact content to persist: always a whole
/// file, so the stored text is internally consistent or absent. The content
/// is guaranteed to load back as exactly this collection.
pub fn save_ices(ices: &Vec<Ice>) -> (r: String)
    requires
        forall|k: int| #![auto] 0 <= k < ices@.len() ==> ices@[k]@.inv(),
    ensures
        r@ == rrecords(ices.deep_view()),
        pfile(r@) == Some(ices.deep_view()),
{
    proof {
        lemma_pfile_round(ices.deep_view());
    }
    render_ices(ices)
}

/// Appends a freshly created dormant record; every existing record is
/// untouched.
pub fn add_ice(ices: &mut Vec<Ice>, description: String, message: String)
    ensures
        final(ices)@.len() == old(ices)@.len() + 1,
        forall|k: int| #![auto] 0 <= k < old(ices)@.len() ==> final(ices)@[k] == old(ices)@[k],
        final(ices)@[old(ices)@.len() as int]@ == (IceV {
            description: description@,
            message: message@,
            emails: Seq::<Seq<char>>::empty(),
            active: false,
            send_date: None,
        }),
        final(ices)@[old(ices)@.len() as int]@.inv(),
{
    let ice = Ice::new(description, message);
    ices.push(ice);
}

/// Arms the record at `index` for release at `at`, validated against `now`:
/// the request succeeds exactly when `at` is strictly in the future, and
/// then only that one record changes. A rejected request leaves the whole
/// collection exactly as it was, so nothing need be written back.
pub fn activate_at(ices: &mut Vec<Ice>, index: usize, now: Stamp, at: Stamp) -> (r: Result<
    (),
    ValidationError,
>)
    requires
        index < old(ices)@.len(),
        at.wf(),
    ensures
        final(ices)@.len() == old(ices)@.len(),
        match r {
            Ok(_) => stamp_lt(now, at) && final(ices)@[index as int]@ == (IceV {
                active: true,
                send_date: Some(at),
                ..old(ices)@[index as int]@
            }) && (forall|k: int|
                #![auto]
                0 <= k < old(ices)@.len() && k != index ==> final(ices)@[k] == old(ices)@[k]),
            Err(e) => e == ValidationError::NotFuture && !stamp_lt(now, at)
                && final(ices)@ == old(ices)@,
        },
        old(ices)@[index as int]@.inv() ==> final(ices)@[index as int]@.inv(),
{
    let ghost pre = ices@;
    let e = &mut ices[index];
    let r = e.arm(now, at);
    proof {
        if r is Err {
            assert(ices@ =~= pre);
        }
    }
    r
}

/// Disarms the record at `index`: an armed record loses its schedule and
/// only that record changes; a dormant one is reported as a no-op and the
/// whole collection is exactly as it was.
pub fn deactivate_at(ices: &mut Vec<Ice>, index: usize) -> (r: DisarmOutcome)
    requires
        index < old(ices)@.len(),
    ensures
        final(ices)@.len() == old(ices)@.len(),
        old(ices)@[index as int]@.active ==> r == DisarmOutcome::Disarmed
            && final(ices)@[index as int]@ == (IceV {
            active: false,
            send_date: None,
            ..old(ices)@[index as int]@
        }) && (forall|k: int|
            #![auto]
            0 <= k < old(ices)@.len() && k != index ==> final(ices)@[k] == old(ices)@[k]),
        !old(ices)@[index as int]@.active ==> r == DisarmOutcome::NoOp
            && final(ices)@ == old(ices)@,
        old(ices)@[index as int]@.inv() ==> final(ices)@[index as int]@.inv(),
{
    let ghost pre = ices@;
    let e = &mut ices[index];
    let r = e.disarm();
    proof {
        if r == DisarmOutcome::NoOp {
            assert(ices@ =~= pre);
        }
    }
    r
}

/// Replaces the record at `index` with an edited working copy; every other
/// record is untouched.
pub fn replace_at(ices: &mut Vec<Ice>, index: usize, ice: Ice)
    requires
        index < old(ices)@.len(),
    ensures
        final(ices)@ == old(ices)@.update(index as int, ice),
        final(ices)@.len() == old(ices)@.len(),
        final(ices)@[index as int] == ice,
        forall|k: int|
            #![auto]
            0 <= k < old(ices)@.len() && k != index ==> final(ices)@[k] == old(ices)@[k],
{
    let e = &mut ices[index];
    *e = ice;
}

/// Removes the record at `index` from the collection entirely, returning
/// it; the order of the remaining records is kept.
pub fn remove_at(ices: &mut Vec<Ice>, index: usize) -> (r: Ice)
    requires
        index < old(ices)@.len(),
    ensures
        r == old(ices)@[index as int],
        final(ices)@ == old(ices)@.remove(index as int),
        final(ices)@.len() == old(ices)@.len() - 1,
{
    ices.remove(index)
}

} // verus!
