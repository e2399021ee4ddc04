//! Backup naming and selection.
//!
//! Backups of a bookmarks file sit beside it, named after it with
//! `.backup_` and a timestamp. These functions decide the names, which
//! files are backups, which old backups to prune and which backup command
//! to run; reading and writing the files is left to the caller.
use vstd::prelude::*;
use crate::sorting::{sort_strings, sorted_strs, lemma_sorted_len};
use crate::text::{concat_strs, str_views};

verus! {

broadcast use vstd::seq_lib::group_seq_properties;

/// The file name that backups are named after: the bookmarks file's name
/// where it has one in UTF-8, "Bookmarks" otherwise.
pub open spec fn base_name(file_name: Option<Seq<char>>) -> Seq<char> {
    match file_name {
        Some(n) => n,
        None => "Bookmarks"@,
    }
}

/// The prefix shared by the names of all backups of a file.
pub open spec fn backup_prefix_spec(file_name: Option<Seq<char>>) -> Seq<char> {
    base_name(file_name) + ".backup_"@
}

/// The prefix shared by the names of all backups of a file: its name and
/// `.backup_`.
pub fn backup_prefix(file_name: Option<&str>) -> (r: String)
    ensures
        r@ == backup_prefix_spec(
            match file_name {
                Some(n) => Some(n@),
                None => None,
            },
        ),
{
    match file_name {
        Some(n) => concat_strs(n, ".backup_"),
        None => concat_strs("Bookmarks", ".backup_"),
    }
}

/// The name of a backup of a file taken at `timestamp`.
pub fn backup_file_name(file_name: Option<&str>, timestamp: &str) -> (r: String)
    ensures
        r@ == backup_prefix_spec(
            match file_name {
                Some(n) => Some(n@),
                None => None,
            },
        ) + timestamp@,
{
    let p = backup_prefix(file_name);
    concat_strs(p.as_str(), timestamp)
}

/// Whether `s` begins with `prefix`.
pub open spec fn starts_with(s: Seq<char>, prefix: Seq<char>) -> bool {
    s.len() >= prefix.len() && s.take(prefix.len() as int) == prefix
}

fn has_prefix(s: &str, prefix: &Vec<char>) -> (r: bool)
    ensures
        r == starts_with(s@, prefix@),
{
    let v = crate::text::chars_of(s);
    if v.len() < prefix.len() {
        return false;
    }
    let mut i: usize = 0;
    while i < prefix.len()
        invariant
            v@ == s@,
            prefix@.len() <= v@.len(),
            i <= prefix@.len(),
            forall|k: int| 0 <= k < i ==> v@[k] == prefix@[k],
        decreases prefix@.len() - i,
    {
        if v[i] != prefix[i] {
            assert(s@.take(prefix@.len() as int)[i as int] != prefix@[i as int]);
            return false;
        }
        i = i + 1;
    }
    assert(s@.take(prefix@.len() as int) =~= prefix@);
    true
}

/// The predicate "is the name of a backup of the file".
pub open spec fn is_backup_of(file_name: Option<Seq<char>>) -> spec_fn(Seq<char>) -> bool {
    |name: Seq<char>| starts_with(name, backup_prefix_spec(file_name))
}

/// The backups of a file among the names of the files beside it, oldest
/// first (sorted by name, which ends in the timestamp).
pub fn select_backups(file_name: Option<&str>, names: &Vec<String>) -> (r: Vec<String>)
    ensures
        str_views(r@) == sorted_strs(
            str_views(names@).filter(
                is_backup_of(
                    match file_name {
                        Some(n) => Some(n@),
                        None => None,
                    },
                ),
            ),
        ),
{
    let ghost fname = match file_name {
        Some(n) => Some(n@),
        None => None,
    };
    let ghost p = is_backup_of(fname);
    let ghost nv = str_views(names@);
    let prefix = backup_prefix(file_name);
    let pv = crate::text::chars_of(prefix.as_str());
    let mut found: Vec<String> = Vec::new();
    let mut i: usize = 0;
    while i < names.len()
        invariant
            p == is_backup_of(fname),
            nv == str_views(names@),
            pv@ == backup_prefix_spec(fname),
            i <= names@.len(),
            str_views(found@) == nv.take(i as int).filter(p),
        decreases names@.len() - i,
    {
        let ghost before = str_views(found@);
        assert(nv.take(i + 1) =~= nv.take(i as int).push(nv[i as int]));
        proof {
            nv.take(i as int).lemma_filter_push(nv[i as int], p);
        }
        if has_prefix(names[i].as_str(), &pv) {
            found.push(names[i].clone());
            assert(str_views(found@) =~= before.push(nv[i as int]));
        }
        i = i + 1;
    }
    assert(nv.take(names@.len() as int) =~= nv);
    sort_strings(found)
}

/// The backups to delete so that only the newest `keep` remain: none when
/// there are at most `keep`, otherwise all but the last `keep` of the
/// oldest-first list.
pub open spec fn prune_spec(backups: Seq<Seq<char>>, keep: nat) -> Seq<Seq<char>> {
    if backups.len() <= keep {
        Seq::empty()
    } else {
        backups.take(backups.len() - keep)
    }
}

/// Choose the old backups to delete, keeping the `keep` most recent.
pub fn backups_to_prune(backups: Vec<String>, keep: usize) -> (r: Vec<String>)
    ensures
        str_views(r@) == prune_spec(str_views(backups@), keep as nat),
{
    let ghost orig = str_views(backups@);
    let mut backups = backups;
    if backups.len() <= keep {
        let r: Vec<String> = Vec::new();
        assert(str_views(r@) =~= Seq::<Seq<char>>::empty());
        return r;
    }
    let n = backups.len() - keep;
    backups.truncate(n);
    assert(str_views(backups@) =~= orig.take(n as int));
    backups
}

/// What the backup command does.
#[derive(Debug)]
pub enum BackupAction {
    /// List the backups.
    List,
    /// Restore the given backup.
    Restore(String),
    /// Delete old backups, keeping this many.
    Prune(usize),
    /// Create a new backup.
    Create,
}

/// The backup command's action: listing when asked, else restoring when a
/// backup is named, else pruning when a count is given, else creating a
/// backup.
pub fn backup_action(list: bool, restore: Option<String>, prune: Option<usize>) -> (r: BackupAction)
    ensures
        list ==> r is List,
        !list && restore is Some ==> r == BackupAction::Restore(restore->0),
        !list && restore is None && prune is Some ==> r == BackupAction::Prune(prune->0),
        !list && restore is None && prune is None ==> r is Create,
{
    if list {
        return BackupAction::List;
    }
    match restore {
        Some(p) => BackupAction::Restore(p),
        None => match prune {
            Some(k) => BackupAction::Prune(k),
            None => BackupAction::Create,
        },
    }
}

} // verus!
