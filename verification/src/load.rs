//! Filling a store from the rows of a database.
//!
//! A database is read as the changes that would have made it: components, files
//! and events in the order of their ids, and then what is known of the files.
use vstd::prelude::*;

use crate::events::{append, references_exist};
use crate::paths::find_entry;
use crate::store::{apply_write, replay, FileId, FileRow, Store, StoreError, Tables, Write};

verus! {

/// Whether no live entry but `except` stands where a row is to stand.
pub open spec fn is_free(t: Tables, row: FileRow, except: Option<FileId>) -> bool {
    row.deleted_at is None ==> forall|i: int|
        0 <= i < t.files.len() && except != Some((i + 1) as i64) && (
        #[trigger] t.files[i]).deleted_at is None ==> !(t.files[i].parent_id == row.parent_id
            && t.files[i].component_id == row.component_id)
}

/// Why a change cannot be made, if it cannot: it refers to something that is not
/// there, it would make two of what there can be only one of, or there is no
/// room for it.
pub open spec fn objection(t: Tables, w: Write) -> Option<StoreError> {
    match w {
        Write::AddComponent(name) => if t.components.contains(name@) {
            Some(StoreError::Conflict)
        } else if t.components.len() >= i64::MAX {
            Some(StoreError::Full)
        } else {
            None
        },
        Write::AddFile(row) => if !t.has_component(row.component_id) {
            Some(StoreError::MissingReference)
        } else if !is_free(t, row, None) {
            Some(StoreError::Conflict)
        } else if t.files.len() >= i64::MAX {
            Some(StoreError::Full)
        } else {
            None
        },
        Write::SetFile(id, row) => if !t.has_file(id) || !t.has_component(row.component_id) {
            Some(StoreError::MissingReference)
        } else if !is_free(t, row, Some(id)) {
            Some(StoreError::Conflict)
        } else {
            None
        },
        Write::AddEvent(event) => if !references_exist(t, event) {
            Some(StoreError::MissingReference)
        } else if t.events.len() >= i64::MAX {
            Some(StoreError::Full)
        } else {
            None
        },
        Write::SetMetadata(id, _) => known(t, id),
        Write::SetExtractionQueue(id, _) => known(t, id),
        Write::SetEnrichment(id, _) => known(t, id),
        Write::SetEnrichmentQueue(id, _) => known(t, id),
        Write::SetEmbedded(_) => None,
        Write::SetEmbeddingQueue(id, _) => known(t, id),
        Write::SetEmbeddingConfig(_) => None,
    }
}

/// A file has to be known for anything to be known of it.
pub open spec fn known(t: Tables, id: FileId) -> Option<StoreError> {
    if t.has_file(id) {
        None
    } else {
        Some(StoreError::MissingReference)
    }
}

/// Whether no live entry but `except` stands where a row is to stand.
fn place_is_free(store: &Store, row: &FileRow, except: Option<FileId>) -> (r: bool)
    requires
        store.wf(),
    ensures
        r == is_free(store@, *row, except),
{
    if row.deleted_at.is_some() {
        return true;
    }
    match find_entry(store, row.parent_id, row.component_id) {
        None => {
            assert(is_free(store@, *row, except));
            true
        },
        Some(id) => {
            let found = store.file(id);
            let itself = match except {
                Some(e) => e == id,
                None => false,
            };
            if found.deleted_at.is_some() || itself {
                assert(is_free(store@, *row, except)) by {
                    let files = store@.files;
                    assert forall|i: int|
                        0 <= i < files.len() && except != Some((i + 1) as i64) && (
                        #[trigger] files[i]).deleted_at is None implies !(files[i].parent_id
                        == row.parent_id && files[i].component_id == row.component_id) by {
                        if files[i].parent_id == row.parent_id && files[i].component_id
                            == row.component_id {
                            if i != id - 1 {
                                assert(crate::paths::at_place(
                                    files[i],
                                    row.parent_id,
                                    row.component_id,
                                ));
                                assert(crate::paths::preferred(files, id - 1, i));
                                if itself && files[id - 1].deleted_at is None {
                                    let (a, b) = if i < id - 1 {
                                        (i, id - 1)
                                    } else {
                                        (id - 1, i)
                                    };
                                    assert(files[a].deleted_at is None && files[b].deleted_at
                                        is None);
                                }
                            }
                        }
                    }
                }
                true
            } else {
                assert(store@.files[id - 1].deleted_at is None);
                false
            }
        },
    }
}

/// Make one change, or say why it cannot be made.
pub fn apply(store: &mut Store, w: Write) -> (r: Result<(), StoreError>)
    requires
        old(store).wf(),
    ensures
        final(store).wf(),
        final(store).taken() == old(store).taken(),
        match objection(old(store)@, w) {
            None => r is Ok && final(store)@ == apply_write(old(store)@, w),
            Some(e) => r == Err::<(), StoreError>(e) && final(store)@ == old(store)@,
        },
{
    match w {
        Write::AddComponent(name) => {
            match store.find_component(name.as_str()) {
                Some(_) => Err(StoreError::Conflict),
                None => {
                    if store.components_len() as u64 >= i64::MAX as u64 {
                        Err(StoreError::Full)
                    } else {
                        let _ = store.add_component(name);
                        Ok(())
                    }
                },
            }
        },
        Write::AddFile(row) => {
            if !store.has_component(row.component_id) {
                Err(StoreError::MissingReference)
            } else if !place_is_free(store, &row, None) {
                Err(StoreError::Conflict)
            } else if store.files_len() as u64 >= i64::MAX as u64 {
                Err(StoreError::Full)
            } else {
                let _ = store.add_file(row);
                Ok(())
            }
        },
        Write::SetFile(id, row) => {
            if !store.has_file(id) || !store.has_component(row.component_id) {
                Err(StoreError::MissingReference)
            } else if !place_is_free(store, &row, Some(id)) {
                Err(StoreError::Conflict)
            } else {
                store.move_file(id, row);
                Ok(())
            }
        },
        Write::AddEvent(event) => {
            if store.events_len() as u64 >= i64::MAX as u64 {
                if crate::events::check_references(store, &event) {
                    Err(StoreError::Full)
                } else {
                    Err(StoreError::MissingReference)
                }
            } else {
                match append(store, &event) {
                    Ok(_) => Ok(()),
                    Err(_) => Err(StoreError::MissingReference),
                }
            }
        },
        Write::SetMetadata(id, m) => {
            if store.has_file(id) {
                store.set_metadata(id, m);
                Ok(())
            } else {
                Err(StoreError::MissingReference)
            }
        },
        Write::SetExtractionQueue(id, e) => {
            if store.has_file(id) {
                store.set_extraction_queue(id, e);
                Ok(())
            } else {
                Err(StoreError::MissingReference)
            }
        },
        Write::SetEnrichment(id, e) => {
            if store.has_file(id) {
                store.set_enrichment(id, e);
                Ok(())
            } else {
                Err(StoreError::MissingReference)
            }
        },
        Write::SetEnrichmentQueue(id, e) => {
            if store.has_file(id) {
                store.set_enrichment_queue(id, e);
                Ok(())
            } else {
                Err(StoreError::MissingReference)
            }
        },
        Write::SetEmbedded(id) => {
            store.set_embedded(id);
            Ok(())
        },
        Write::SetEmbeddingQueue(id, e) => {
            if store.has_file(id) {
                store.set_embedding_queue(id, e);
                Ok(())
            } else {
                Err(StoreError::MissingReference)
            }
        },
        Write::SetEmbeddingConfig(c) => {
            store.set_embedding_config(c);
            Ok(())
        },
    }
}

/// The first objection to making changes one after another, if there is any.
pub open spec fn first_objection(t: Tables, writes: Seq<Write>) -> Option<StoreError>
    decreases writes.len(),
{
    if writes.len() == 0 {
        None
    } else {
        match first_objection(t, writes.drop_last()) {
            Some(e) => Some(e),
            None => objection(replay(t, writes.drop_last()), writes.last()),
        }
    }
}

proof fn lemma_objection_stays(t: Tables, writes: Seq<Write>, k: int)
    requires
        0 <= k <= writes.len(),
        first_objection(t, writes.take(k)) is Some,
    ensures
        first_objection(t, writes) == first_objection(t, writes.take(k)),
    decreases writes.len() - k,
{
    if k == writes.len() {
        assert(writes.take(k) =~= writes);
    } else {
        assert(writes.take(k + 1).drop_last() =~= writes.take(k));
        lemma_objection_stays(t, writes, k + 1);
    }
}

/// A store with the tables that the changes lead to, or the first objection to
/// one of them. Nothing is left to be written: the changes came from there.
pub fn load(writes: Vec<Write>) -> (r: Result<Store, StoreError>)
    ensures
        match first_objection(Tables::empty(), writes@) {
            None => match r {
                Ok(store) => store.wf() && store@ == replay(Tables::empty(), writes@)
                    && store.taken() == store@ && store.pending_writes().len() == 0,
                Err(_) => false,
            },
            Some(e) => match r {
                Ok(_) => false,
                Err(found) => found == e,
            },
        },
{
    let ghost all = writes@;
    let mut store = Store::new();
    let mut left = writes;
    let mut turned: Vec<Write> = Vec::new();
    while left.len() > 0
        invariant
            left@ == all.take(left@.len() as int),
            left@.len() + turned@.len() == all.len(),
            forall|i: int|
                0 <= i < turned@.len() ==> #[trigger] turned@[i] == all[all.len() - 1 - i],
        decreases left.len(),
    {
        let ghost before = left@;
        match left.pop() {
            Some(w) => {
                assert(before.last() == all[before.len() - 1]);
                turned.push(w);
                assert(left@ =~= all.take(left@.len() as int));
            },
            None => {},
        }
    }
    let ghost reversed = turned@;
    assert(all.take(0) =~= Seq::<Write>::empty());
    while turned.len() > 0
        invariant
            store.wf(),
            all == writes@,
            reversed.len() == all.len(),
            turned@.len() <= reversed.len(),
            turned@ == reversed.take(turned@.len() as int),
            forall|i: int|
                0 <= i < reversed.len() ==> #[trigger] reversed[i] == all[all.len() - 1 - i],
            first_objection(Tables::empty(), all.take(all.len() - turned@.len())) is None,
            store@ == replay(Tables::empty(), all.take(all.len() - turned@.len())),
        decreases turned.len(),
    {
        let ghost before = turned@;
        let ghost k = all.len() - turned@.len();
        match turned.pop() {
            Some(w) => {
                proof {
                    assert(before.last() == reversed[before.len() - 1]);
                    assert(w == all[k]);
                    assert(turned@ =~= reversed.take(turned@.len() as int));
                    assert(all.take(k + 1).drop_last() =~= all.take(k));
                    assert(all.take(k + 1).last() == w);
                }
                if let Err(e) = apply(&mut store, w) {
                    proof {
                        lemma_objection_stays(Tables::empty(), all, k + 1);
                    }
                    return Err(e);
                }
            },
            None => {},
        }
    }
    assert(all.take(all.len() as int) =~= all);
    let _ = store.take_writes();
    Ok(store)
}

// Laws.

/// Tables stay what tables are by every change that is made: whatever is loaded holds
/// together.
pub proof fn what_is_loaded_holds_together(t: Tables, w: Write)
    requires
        t.wf(),
        objection(t, w) is None,
    ensures
        apply_write(t, w).wf(),
{
    let u = apply_write(t, w);
    match w {
        Write::AddComponent(name) => {
            assert(!t.components.contains(name@));
            assert forall|i: int, j: int|
                0 <= i < u.components.len() && 0 <= j < u.components.len() && i != j implies
                u.components[i] != u.components[j] by {
                if i < t.components.len() && j == t.components.len() {
                    assert(t.components.contains(t.components[i]));
                }
                if j < t.components.len() && i == t.components.len() {
                    assert(t.components.contains(t.components[j]));
                }
            }
            assert forall|i: int| 0 <= i < u.files.len() implies u.has_component(
                (#[trigger] u.files[i]).component_id,
            ) by {
                assert(t.has_component(t.files[i].component_id));
            }
        },
        Write::AddFile(row) => {
            assert forall|i: int| 0 <= i < u.files.len() implies u.has_component(
                (#[trigger] u.files[i]).component_id,
            ) by {
                if i < t.files.len() {
                    assert(t.has_component(t.files[i].component_id));
                }
            }
            assert forall|i: int| 0 <= i < u.events.len() implies u.has_file(
                (#[trigger] u.events[i]).file_id,
            ) by {
                assert(t.has_file(t.events[i].file_id));
            }
            assert forall|i: int, j: int|
                0 <= i < j < u.files.len() && (#[trigger] u.files[i]).deleted_at is None && (
                #[trigger] u.files[j]).deleted_at is None implies !(u.files[i].parent_id
                == u.files[j].parent_id && u.files[i].component_id == u.files[j].component_id) by {
                assert(t.files[i].deleted_at is None);
                if j < t.files.len() {
                    assert(t.files[j].deleted_at is None);
                }
            }
        },
        Write::SetFile(id, row) => {
            assert forall|i: int| 0 <= i < u.files.len() implies u.has_component(
                (#[trigger] u.files[i]).component_id,
            ) by {
                if i != id - 1 {
                    assert(t.has_component(t.files[i].component_id));
                }
            }
            assert forall|i: int, j: int|
                0 <= i < j < u.files.len() && (#[trigger] u.files[i]).deleted_at is None && (
                #[trigger] u.files[j]).deleted_at is None implies !(u.files[i].parent_id
                == u.files[j].parent_id && u.files[i].component_id == u.files[j].component_id) by {
                if i != id - 1 {
                    assert(u.files[i] == t.files[i]);
                }
                if j != id - 1 {
                    assert(u.files[j] == t.files[j]);
                }
            }
        },
        _ => {},
    }
}

/// A change is refused only for a reason: something that it refers to is not there, or what
/// it would add is there already, or there is no room for more.
pub proof fn a_change_is_refused_for_a_reason(t: Tables, w: Write, k: int)
    requires
        t.wf(),
        t.components.len() < i64::MAX,
        t.files.len() < i64::MAX,
        t.events.len() < i64::MAX,
    ensures
        w matches Write::AddComponent(name) ==> (objection(t, w) is Some <==> exists|c: int|
            0 <= c < t.components.len() && #[trigger] t.components[c] == name@),
        w matches Write::AddFile(row) ==> {
            &&& !t.has_component(row.component_id) ==> objection(t, w) == Some(
                StoreError::MissingReference,
            )
            &&& t.has_component(row.component_id) && row.deleted_at is Some ==> objection(t, w)
                is None
            &&& t.has_component(row.component_id) && row.deleted_at is None && 0 <= k
                < t.files.len() && t.files[k].deleted_at is None && t.files[k].parent_id
                == row.parent_id && t.files[k].component_id == row.component_id ==> objection(t, w)
                == Some(StoreError::Conflict)
        },
        w matches Write::AddEvent(event) ==> (objection(t, w) is None <==> t.has_file(event.file_id)
            && t.parent_ok(event.prev_parent_id) && (event.prev_component_id is Some
            ==> t.has_component(event.prev_component_id->0))),
        w matches Write::SetMetadata(id, m) ==> (objection(t, w) is None <==> t.has_file(id)),
        w matches Write::SetExtractionQueue(id, e) ==> (objection(t, w) is None <==> t.has_file(
            id,
        )),
        w matches Write::SetEnrichment(id, e) ==> (objection(t, w) is None <==> t.has_file(id)),
        w matches Write::SetEnrichmentQueue(id, e) ==> (objection(t, w) is None <==> t.has_file(
            id,
        )),
        w matches Write::SetEmbeddingQueue(id, e) ==> (objection(t, w) is None <==> t.has_file(
            id,
        )),
        w is SetEmbedded || w is SetEmbeddingConfig ==> objection(t, w) is None,
{
    if let Write::AddComponent(name) = w {
        if t.components.contains(name@) {
            let c = choose|c: int| 0 <= c < t.components.len() && t.components[c] == name@;
            assert(t.components[c] == name@);
        }
    }
}

} // verus!
