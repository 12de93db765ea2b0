//! How a running device takes up a new configuration.
//!
//! A configuration lists device entries, each with an id. A running device
//! looks at the entries with its own id whose description is of its own
//! kind; `None` stands for an entry of another kind.

use vstd::prelude::*;
use crate::ids::Id;

verus! {

fn same_text(a: &String, b: &String) -> (r: bool)
    ensures
        r == (a@ == b@),
{
    *a == *b
}

/// Entry `i` is for the device `id`, of its kind, with commands other than
/// `current`.
pub open spec fn changes_commands(entries: Seq<(Id, Option<String>)>, id: Id, current: Seq<char>, i: int) -> bool {
    &&& entries[i].0 == id
    &&& entries[i].1 matches Some(c) && c@ != current
}

/// An AWR device with commands `current` restarts at the first entry for it
/// whose commands differ: this gives that entry's place, and the device runs
/// its commands from then on. Entries before it only move the device.
pub fn first_command_change(current: &String, id: Id, entries: &Vec<(Id, Option<String>)>) -> (r: Option<usize>)
    ensures
        match r {
            Some(i) => i < entries@.len() && changes_commands(entries@, id, current@, i as int) && forall|j: int|
                0 <= j < i ==> !#[trigger] changes_commands(entries@, id, current@, j),
            None => forall|j: int| 0 <= j < entries@.len() ==> !#[trigger] changes_commands(entries@, id, current@, j),
        },
{
    let mut i: usize = 0;
    while i < entries.len()
        invariant
            0 <= i <= entries@.len(),
            forall|j: int| 0 <= j < i ==> !#[trigger] changes_commands(entries@, id, current@, j),
        decreases entries@.len() - i,
    {
        if entries[i].0 == id {
            if let Some(c) = &entries[i].1 {
                if !same_text(c, current) {
                    return Some(i);
                }
            }
        }
        i += 1;
    }
    None
}

/// The files a recorder writes to in turn, starting from `current`: each
/// entry for it names a file, and a file other than the one in use is opened
/// afresh.
pub open spec fn reopened(current: Seq<char>, id: Id, entries: Seq<(Id, Option<String>)>) -> (Seq<char>, Seq<Seq<char>>)
    decreases entries.len(),
{
    if entries.len() == 0 {
        (current, Seq::empty())
    } else {
        let (cur, opened) = reopened(current, id, entries.drop_last());
        let e = entries.last();
        if e.0 == id && (e.1 matches Some(p) && p@ != cur) {
            (e.1->0@, opened.push(e.1->0@))
        } else {
            (cur, opened)
        }
    }
}

/// The files that a recorder using `current` opens, in order, as it takes
/// up the entries.
pub fn recording_files(current: &String, id: Id, entries: &Vec<(Id, Option<String>)>) -> (r: Vec<String>)
    ensures
        r@.map_values(|s: String| s@) == reopened(current@, id, entries@).1,
{
    let mut cur = current.clone();
    let mut opened: Vec<String> = Vec::new();
    let mut i: usize = 0;
    assert(entries@.subrange(0, 0) =~= Seq::<(Id, Option<String>)>::empty());
    assert(opened@.map_values(|s: String| s@) =~= Seq::<Seq<char>>::empty());
    while i < entries.len()
        invariant
            0 <= i <= entries@.len(),
            (cur@, opened@.map_values(|s: String| s@)) == reopened(current@, id, entries@.subrange(0, i as int)),
        decreases entries@.len() - i,
    {
        let ghost sub = entries@.subrange(0, i + 1);
        let ghost before = opened@.map_values(|s: String| s@);
        proof {
            assert(sub.drop_last() =~= entries@.subrange(0, i as int));
            assert(sub.last() == entries@[i as int]);
        }
        if entries[i].0 == id {
            if let Some(p) = &entries[i].1 {
                if !same_text(p, &cur) {
                    cur = p.clone();
                    opened.push(p.clone());
                    assert(opened@.map_values(|s: String| s@) =~= before.push(p@));
                }
            }
        }
        i += 1;
    }
    assert(entries@.subrange(0, entries@.len() as int) =~= entries@);
    opened
}

/// What a playback device plays after taking up the entries: the file and
/// label filter of the last entry for it, or its own where there is none.
pub open spec fn last_playback(
    current: (Seq<char>, Seq<char>),
    id: Id,
    entries: Seq<(Id, Option<(String, String)>)>,
) -> (Seq<char>, Seq<char>)
    decreases entries.len(),
{
    if entries.len() == 0 {
        current
    } else {
        let e = entries.last();
        match e.1 {
            Some((path, filter)) if e.0 == id => (path@, filter@),
            _ => last_playback(current, id, entries.drop_last()),
        }
    }
}

/// The file and label filter that a playback device plays from after
/// taking up the entries, each entry for it replacing both.
pub fn playback_settings(
    file_path: &String,
    label_filter: &String,
    id: Id,
    entries: &Vec<(Id, Option<(String, String)>)>,
) -> (r: (String, String))
    ensures
        (r.0@, r.1@) == last_playback((file_path@, label_filter@), id, entries@),
{
    let mut file = file_path.clone();
    let mut filter = label_filter.clone();
    let mut i: usize = 0;
    assert(entries@.subrange(0, 0) =~= Seq::<(Id, Option<(String, String)>)>::empty());
    while i < entries.len()
        invariant
            0 <= i <= entries@.len(),
            (file@, filter@) == last_playback((file_path@, label_filter@), id, entries@.subrange(0, i as int)),
        decreases entries@.len() - i,
    {
        let ghost sub = entries@.subrange(0, i + 1);
        proof {
            assert(sub.drop_last() =~= entries@.subrange(0, i as int));
            assert(sub.last() == entries@[i as int]);
        }
        if entries[i].0 == id {
            if let Some((p, f)) = &entries[i].1 {
                file = p.clone();
                filter = f.clone();
            }
        }
        i += 1;
    }
    assert(entries@.subrange(0, entries@.len() as int) =~= entries@);
    (file, filter)
}

} // verus!
