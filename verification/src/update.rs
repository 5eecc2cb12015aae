//! The reducer: one step of the application, from the current store and one
//! UI or network event to the next store plus the side effects the caller
//! must perform (issue a clip request, write storage, log, focus the
//! input). The caller performs the effects and feeds the outcome of a clip
//! request back in as another event, so every decision stays here and is
//! verified.

use vstd::prelude::*;
use vstd::utf8::encode_utf8;

use crate::json::clip_request_json;
use crate::json::decode_entries;
use crate::json::decode_entries_spec;
use crate::json::encode_clip_request;
use crate::json::encode_entries;
use crate::json::entries_json;
use crate::state::Entry;
use crate::state::EntryModel;
use crate::state::Filter;
use crate::state::State;
use crate::state::StateModel;
use crate::state::views_of;
use crate::text::trimmed;
use crate::text::trimmed_string;

verus! {

/// A clipped address returned by the clip endpoint.
pub struct Url {
    pub address: String,
}

/// A failed clip request, reduced to the diagnostic text to log.
pub struct FetchFailure {
    pub message: String,
}

/// One event: a UI action or the outcome of a clip request.
pub enum Msg {
    Add,
    Update(String),
    UpdateStore(Result<Url, FetchFailure>),
    Remove(usize),
    Toggle(usize),
    Focus,
}

/// One side effect the caller must perform after a reducer step.
pub enum Effect {
    /// Send this body to the clip endpoint as `POST <base>clip` with
    /// content type `application/json`; deliver the outcome as
    /// `Msg::UpdateStore`.
    Fetch(Vec<u8>),
    /// Write these bytes to local storage under the app's fixed key.
    Store(Vec<u8>),
    /// Log this diagnostic to the console.
    Log(String),
    /// Move keyboard focus to the input field.
    Focus,
}

/// Whether `e` stores exactly the canonical encoding of `entries`.
pub open spec fn is_store_effect(e: Effect, entries: Seq<EntryModel>) -> bool {
    e matches Effect::Store(b) && b@ == entries_json(entries)
}

/// The entry appended for a clipped address: the configured base text
/// followed by the returned address, not completed, not being edited.
pub open spec fn clipped_entry(base: Seq<char>, addr: Seq<char>) -> EntryModel {
    EntryModel { description: encode_utf8(base + addr), completed: false, editing: false }
}

/// Whether some entry of `s` equals the given description and completed
/// flag; the duplicate test ignores the editing flag.
pub open spec fn entry_like_exists(s: Seq<EntryModel>, d: Seq<u8>, completed: bool) -> bool {
    exists|i: int| 0 <= i < s.len() && s[i].description == d && s[i].completed == completed
}

/// Relies on the format macro of alloc: formatting two string slices one
/// after the other concatenates their characters.
#[verifier::external_body]
fn concat_str(a: &str, b: &str) -> (r: String)
    ensures
        r@ == a@ + b@,
{
    format!("{}{}", a, b)
}

/// Whether the list already holds an entry with this description and
/// completed flag.
fn contains_like(entries: &Vec<Entry>, d: &String, completed: bool) -> (r: bool)
    ensures
        r == entry_like_exists(views_of(entries@), encode_utf8(d@), completed),
{
    let mut i: usize = 0;
    while i < entries.len()
        invariant
            i <= entries@.len(),
            forall|j: int|
                0 <= j < i ==> !((#[trigger] views_of(entries@)[j]).description == encode_utf8(
                    d@,
                ) && views_of(entries@)[j].completed == completed),
        decreases entries@.len() - i,
    {
        if entries[i].description.eq(d) && entries[i].completed == completed {
            proof {
                assert(views_of(entries@)[i as int].description == encode_utf8(d@));
            }
            return true;
        }
        proof {
            if views_of(entries@)[i as int].description == encode_utf8(d@) {
                vstd::utf8::encode_utf8_decode_utf8(entries@[i as int].description@);
                vstd::utf8::encode_utf8_decode_utf8(d@);
                assert(entries@[i as int].description@ == d@);
            }
        }
        i = i + 1;
    }
    false
}

/// Builds the store-write effect for the current entry list.
fn store_effect(entries: &Vec<Entry>) -> (e: Effect)
    ensures
        is_store_effect(e, views_of(entries@)),
{
    Effect::Store(encode_entries(entries))
}

/// Performs one reducer step: applies `msg` to `state` and returns the
/// side effects to perform, always ending with a storage write of the new
/// entry list.
pub fn update(state: &mut State, base_url: &str, msg: Msg) -> (effects: Vec<Effect>)
    ensures
        effects@.len() >= 1 && is_store_effect(
            effects@.last(),
            final(state)@.entries,
        ),
        old(state)@.wf() ==> final(state)@.wf(),
        msg matches Msg::Add ==> {
            &&& final(state)@.value == Seq::<u8>::empty()
            &&& final(state)@.entries == old(state)@.entries
            &&& final(state)@.edit_value == old(state)@.edit_value
            &&& final(state)@.filter == old(state)@.filter
            &&& trimmed(old(state)@.value).len() == 0 ==> effects@.len() == 1
            &&& trimmed(old(state)@.value).len() > 0 ==> effects@.len() == 2 && (effects@[0]
                matches Effect::Fetch(b) && b@ == clip_request_json(trimmed(old(state)@.value)))
        },
        msg matches Msg::Update(val) ==> {
            &&& final(state)@ == (StateModel { value: encode_utf8(val@), ..old(state)@ })
            &&& effects@.len() == 2
            &&& (effects@[0] matches Effect::Log(m) && m@ == "Update"@)
        },
        msg matches Msg::UpdateStore(res) ==> {
            &&& final(state)@.value == old(state)@.value
            &&& final(state)@.edit_value == old(state)@.edit_value
            &&& final(state)@.filter == old(state)@.filter
            &&& (res matches Ok(url) ==> {
                let e = clipped_entry(base_url@, url.address@);
                &&& effects@.len() == 3
                &&& entry_like_exists(old(state)@.entries, e.description, false)
                    ==> final(state)@.entries == old(state)@.entries
                &&& !entry_like_exists(old(state)@.entries, e.description, false)
                    ==> final(state)@.entries == old(state)@.entries.push(e)
            })
            &&& (res matches Err(f) ==> final(state)@.entries == old(state)@.entries
                && effects@.len() == 4 && (effects@[2] matches Effect::Log(m) && m@
                == f.message@))
        },
        msg matches Msg::Remove(idx) ==> {
            &&& idx < old(state)@.entries.len() ==> final(state)@.entries
                == old(state)@.entries.remove(idx as int)
            &&& idx >= old(state)@.entries.len() ==> final(state)@.entries == old(state)@.entries
            &&& final(state)@.value == old(state)@.value
            &&& final(state)@.edit_value == old(state)@.edit_value
            &&& final(state)@.filter == old(state)@.filter
        },
        msg matches Msg::Toggle(idx) ==> {
            &&& idx < old(state)@.entries.len() ==> final(state)@.entries
                == old(state)@.entries.update(
                idx as int,
                crate::state::toggled(old(state)@.entries[idx as int]),
            )
            &&& idx >= old(state)@.entries.len() ==> final(state)@.entries == old(state)@.entries
            &&& final(state)@.value == old(state)@.value
            &&& final(state)@.edit_value == old(state)@.edit_value
            &&& final(state)@.filter == old(state)@.filter
        },
        msg matches Msg::Focus ==> final(state)@ == old(state)@ && effects@.len() == 2 && effects@[0]
            matches Effect::Focus,
{
    let mut effects: Vec<Effect> = Vec::new();
    match msg {
        Msg::Add => {
            let t = trimmed_string(self_value(state));
            let tb = t.as_str().as_bytes();
            if tb.len() > 0 {
                effects.push(Effect::Fetch(encode_clip_request(t.as_str())));
            }
            state.value = new_string();
            proof {
                assert(encode_utf8(Seq::<char>::empty()) =~= Seq::<u8>::empty()) by {
                    reveal_with_fuel(vstd::utf8::encode_utf8, 2);
                }
                assert(final(state)@.entries =~= old(state)@.entries);
            }
        },
        Msg::Update(val) => {
            effects.push(Effect::Log("Update".to_owned()));
            state.value = val;
            assert(final(state)@.entries =~= old(state)@.entries);
        },
        Msg::UpdateStore(res) => {
            effects.push(Effect::Log("UpdateStore".to_owned()));
            match res {
                Ok(url) => {
                    effects.push(Effect::Log("ok URL".to_owned()));
                    let description = concat_str(base_url, url.address.as_str());
                    if !contains_like(&state.entries, &description, false) {
                        let entry = Entry { description, completed: false, editing: false };
                        let ghost pre = state.entries@;
                        state.entries.push(entry);
                        proof {
                            assert(final(state)@.entries =~= views_of(pre).push(
                                clipped_entry(base_url@, url.address@),
                            ));
                            if old(state)@.wf() {
                                assert forall|k: int, j: int|
                                    0 <= k < state@.entries.len() && 0 <= j
                                        < state@.entries.len() && state@.entries[k].editing
                                        && state@.entries[j].editing implies k == j by {
                                    assert(state@.entries[k] == old(state)@.entries[k]);
                                    assert(state@.entries[j] == old(state)@.entries[j]);
                                }
                            }
                        }
                    }
                },
                Err(failure) => {
                    effects.push(Effect::Log("error".to_owned()));
                    effects.push(Effect::Log(failure.message));
                    assert(final(state)@.entries =~= old(state)@.entries);
                },
            }
        },
        Msg::Remove(idx) => {
            let _ = state.remove(idx);
        },
        Msg::Toggle(idx) => {
            let _ = state.toggle(idx);
        },
        Msg::Focus => {
            effects.push(Effect::Focus);
        },
    }
    effects.push(store_effect(&state.entries));
    effects
}

/// The current input text as a string slice.
fn self_value(state: &State) -> (r: &str)
    ensures
        encode_utf8(r@) == state@.value,
{
    state.value.as_str()
}

/// An empty string.
fn new_string() -> (r: String)
    ensures
        r@ == Seq::<char>::empty(),
{
    String::new()
}

/// Builds the startup state: the entries decoded from the stored bytes
/// where they parse, else an empty list; empty scratch strings and the
/// `All` filter either way.
pub fn restore_state(stored: Option<&Vec<u8>>) -> (s: State)
    ensures
        s@.value == Seq::<u8>::empty(),
        s@.edit_value == Seq::<u8>::empty(),
        s@.filter == Filter::All,
        match stored {
            Some(b) => match decode_entries_spec(b@) {
                Some(es) => s@.entries == es,
                None => s@.entries == Seq::<EntryModel>::empty(),
            },
            None => s@.entries == Seq::<EntryModel>::empty(),
        },
{
    proof {
        assert(encode_utf8(Seq::<char>::empty()) =~= Seq::<u8>::empty()) by {
            reveal_with_fuel(vstd::utf8::encode_utf8, 2);
        }
    }
    let entries: Vec<Entry> = match stored {
        Some(bytes) => match decode_entries(bytes.as_slice()) {
            Some(v) => v,
            None => Vec::new(),
        },
        None => Vec::new(),
    };
    proof {
        assert(views_of(Seq::<Entry>::empty()) =~= Seq::<EntryModel>::empty());
    }
    State { entries, value: new_string(), edit_value: new_string(), filter: Filter::All }
}

} // verus!
