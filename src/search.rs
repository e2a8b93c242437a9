//! Looking a command name up along the search path.
//!
//! The search path is the value of the path variable split at `:`. Listing
//! a directory is the caller's business: the lookup takes, for each search
//! directory in order, the names of its entries (none where the directory
//! could not be read) and picks the first directory that holds the name.
use vstd::prelude::*;

use crate::text::{chars_of, pieces_view, split_chars, split_on, string_of, strings_view};

verus! {

/// One directory of the search path with the names of its entries.
pub struct DirListing {
    pub dir: String,
    pub entries: Vec<String>,
}

/// Whether `l` has an entry called `name`.
pub open spec fn holds_entry(l: DirListing, name: Seq<char>) -> bool {
    exists|i: int| 0 <= i < l.entries@.len() && (#[trigger] l.entries@[i])@ == name
}

/// The path of `name` inside `dir`.
pub open spec fn join_path(dir: Seq<char>, name: Seq<char>) -> Seq<char> {
    dir + seq!['/'] + name
}

/// The path of `name` in the first of `dirs` that holds it, if any does.
pub open spec fn lookup(dirs: Seq<DirListing>, name: Seq<char>) -> Option<Seq<char>>
    decreases dirs.len(),
{
    if dirs.len() == 0 {
        None
    } else if holds_entry(dirs[0], name) {
        Some(join_path(dirs[0].dir@, name))
    } else {
        lookup(dirs.drop_first(), name)
    }
}

pub open spec fn string_opt_view(o: Option<String>) -> Option<Seq<char>> {
    match o {
        Some(s) => Some(s@),
        None => None,
    }
}

/// The directories named by a search-path value, in order; empty pieces
/// are kept.
pub fn split_search_path(value: &str) -> (r: Vec<String>)
    ensures
        strings_view(r@) == split_on(value@, ':'),
{
    let cs = chars_of(value);
    let parts = split_chars(&cs, ':');
    let ghost all = pieces_view(parts@);
    let mut r: Vec<String> = Vec::new();
    for i in 0..parts.len()
        invariant
            all == pieces_view(parts@),
            strings_view(r@) == all.take(i as int),
    {
        let piece = string_of(parts[i].as_slice());
        assert(piece@ == all[i as int]);
        let ghost before = r@;
        r.push(piece);
        assert(strings_view(r@) =~= strings_view(before).push(piece@));
        assert(all.take(i + 1) =~= all.take(i as int).push(all[i as int]));
    }
    assert(all.take(parts.len() as int) == all);
    r
}

/// Whether one of `entries` is exactly `name`.
fn path_contains_file(entries: &Vec<String>, name: &String) -> (r: bool)
    ensures
        r == exists|i: int| 0 <= i < entries@.len() && (#[trigger] entries@[i])@ == name@,
{
    for i in 0..entries.len()
        invariant
            forall|j: int| 0 <= j < i ==> (#[trigger] entries@[j])@ != name@,
    {
        if entries[i] == *name {
            return true;
        }
    }
    false
}

/// The path of `name` in the first listed directory that has an entry of
/// that name; `None` where no directory has one.
pub fn find_in_paths(name: &str, dirs: &Vec<DirListing>) -> (r: Option<String>)
    ensures
        string_opt_view(r) == lookup(dirs@, name@),
{
    let target = String::from_str(name);
    assert(dirs@.skip(0) == dirs@);
    for k in 0..dirs.len()
        invariant
            target@ == name@,
            lookup(dirs@, name@) == lookup(dirs@.skip(k as int), name@),
    {
        let d = &dirs[k];
        assert(dirs@.skip(k as int)[0] == *d);
        assert(dirs@.skip(k as int).drop_first() == dirs@.skip(k + 1));
        if path_contains_file(&d.entries, &target) {
            let mut p = d.dir.clone();
            p.append("/");
            p.append(name);
            proof {
                reveal_strlit("/");
            }
            assert(p@ =~= join_path(d.dir@, name@));
            return Some(p);
        }
    }
    None
}

/// The lookup answers with the first directory, in search order, that holds
/// the name, and with nothing when no directory holds it (so also when the
/// search path is empty).
pub proof fn lemma_lookup_first_match(dirs: Seq<DirListing>, name: Seq<char>)
    ensures
        lookup(dirs, name) is None <==> forall|k: int|
            0 <= k < dirs.len() ==> !holds_entry(#[trigger] dirs[k], name),
        forall|k: int|
            0 <= k < dirs.len() && holds_entry(#[trigger] dirs[k], name) && (forall|j: int|
                0 <= j < k ==> !holds_entry(#[trigger] dirs[j], name)) ==> lookup(dirs, name)
                == Some(join_path(dirs[k].dir@, name)),
    decreases dirs.len(),
{
    if dirs.len() > 0 {
        let rest = dirs.drop_first();
        lemma_lookup_first_match(rest, name);
        assert forall|k: int| 0 < k < dirs.len() implies #[trigger] dirs[k] == rest[k - 1] by {}
        if !holds_entry(dirs[0], name) {
            assert forall|k: int|
                0 <= k < dirs.len() && holds_entry(#[trigger] dirs[k], name) && (forall|j: int|
                    0 <= j < k ==> !holds_entry(#[trigger] dirs[j], name)) implies lookup(dirs, name)
                == Some(join_path(dirs[k].dir@, name)) by {
                assert(k > 0);
                assert(holds_entry(rest[k - 1], name));
                assert forall|j: int| 0 <= j < k - 1 implies !holds_entry(#[trigger] rest[j], name) by {
                    assert(rest[j] == dirs[j + 1]);
                }
            }
            if lookup(dirs, name) is None {
                assert forall|k: int| 0 <= k < dirs.len() implies !holds_entry(#[trigger] dirs[k], name) by {
                    if k > 0 {
                        assert(rest[k - 1] == dirs[k]);
                    }
                }
            } else {
                let k = choose|k: int| 0 <= k < rest.len() && holds_entry(#[trigger] rest[k], name);
                assert(dirs[k + 1] == rest[k]);
            }
        } else {
            assert forall|k: int|
                0 <= k < dirs.len() && holds_entry(#[trigger] dirs[k], name) && (forall|j: int|
                    0 <= j < k ==> !holds_entry(#[trigger] dirs[j], name)) implies k == 0 by {
                if k > 0 {
                    assert(!holds_entry(dirs[0], name));
                }
            }
        }
    }
}

} // verus!
