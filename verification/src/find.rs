//! Choosing the entries of a directory tree by kind and by name.

use vstd::prelude::*;
use vstd::string::StrSliceExecFns;
use vstd::string::StringExecFns;
use crate::pattern::{check_pattern, finds, is_found, is_pattern};

verus! {

/// The kinds of entry that can be asked for.
#[derive(Debug, Clone, Copy, PartialEq, Eq, Structural)]
pub enum EntryType {
    /// A directory.
    Dir,
    /// A regular file.
    File,
    /// A symbolic link.
    Link,
}

/// What the user asked for.
#[derive(Debug)]
pub struct Config {
    /// Where to search.
    pub paths: Vec<String>,
    /// Regular expressions for the names; an entry is wanted if one of
    /// them matches its name, or if there is none.
    pub names: Vec<String>,
    /// The kinds of entry that are wanted.
    pub entry_types: Vec<EntryType>,
}

/// What is known of an entry of the tree.
#[derive(Debug)]
pub struct Entry {
    /// Whether it is a directory.
    pub is_dir: bool,
    /// Whether it is a symbolic link.
    pub is_symlink: bool,
    /// Whether it is a regular file.
    pub is_file: bool,
    /// Its name, without the directories that lead to it.
    pub file_name: String,
}

/// Whether the name `s` is wanted: whether one of `regs` matches it,
/// or there is none.
pub open spec fn name_wanted(regs: Seq<String>, s: Seq<char>) -> bool {
    regs.len() == 0 || exists|i: int| 0 <= i < regs.len() && finds(#[trigger] regs[i]@, s)
}

/// Whether all of `names` are regular expressions.
pub open spec fn all_patterns(names: Seq<String>) -> bool {
    forall|i: int| 0 <= i < names.len() ==> is_pattern(#[trigger] names[i]@)
}

/// How often an entry is listed: once for each of directory, symbolic
/// link and regular file that it is and that is wanted, if its name is
/// wanted; else not at all.
pub open spec fn listings(config: Config, entry: Entry) -> nat {
    if name_wanted(config.names@, entry.file_name@) {
        let dir: nat = if entry.is_dir && config.entry_types@.contains(EntryType::Dir) {
            1
        } else {
            0
        };
        let link: nat = if entry.is_symlink && config.entry_types@.contains(EntryType::Link) {
            1
        } else {
            0
        };
        let file: nat = if entry.is_file && config.entry_types@.contains(EntryType::File) {
            1
        } else {
            0
        };
        dir + link + file
    } else {
        0
    }
}

/// Tells whether one of `regs` matches `s`, or `regs` is empty.
pub fn is_match(regs: &Vec<String>, s: &str) -> (b: bool)
    ensures
        b == name_wanted(regs@, s@),
{
    if regs.len() == 0 {
        return true;
    }
    let mut i: usize = 0;
    while i < regs.len()
        invariant
            i <= regs.len(),
            forall|j: int| 0 <= j < i ==> !finds(#[trigger] regs@[j]@, s@),
        decreases regs.len() - i,
    {
        if is_found(regs[i].as_str(), s) {
            return true;
        }
        i += 1;
    }
    false
}

/// The kind of entry that the letter `flag` names: `d` for
/// directories, `l` for symbolic links, `f` for regular files.
pub fn entry_type(flag: &str) -> (kind: EntryType)
    requires
        flag@ == "d"@ || flag@ == "l"@ || flag@ == "f"@,
    ensures
        flag@ == "d"@ ==> kind == EntryType::Dir,
        flag@ == "l"@ ==> kind == EntryType::Link,
        flag@ == "f"@ ==> kind == EntryType::File,
{
    proof {
        reveal_strlit("d");
        reveal_strlit("l");
        reveal_strlit("f");
    }
    let letter = flag.get_char(0);
    if letter == 'd' {
        EntryType::Dir
    } else if letter == 'l' {
        EntryType::Link
    } else {
        EntryType::File
    }
}

/// The kinds that are wanted where none is named: all three.
pub fn default_entry_types() -> (kinds: Vec<EntryType>)
    ensures
        kinds@ == seq![EntryType::Dir, EntryType::Link, EntryType::File],
{
    let mut kinds: Vec<EntryType> = Vec::new();
    kinds.push(EntryType::Dir);
    kinds.push(EntryType::Link);
    kinds.push(EntryType::File);
    kinds
}

/// What `check_names` says of a name that is no regular expression.
pub open spec fn invalid_name(name: Seq<char>) -> Seq<char> {
    "Invalid --name \""@ + name + "\""@
}

/// Checks that the names to search for are regular expressions. The
/// first that is none is answered with `Invalid --name` and the name
/// in quotes.
pub fn check_names(names: &Vec<String>) -> (r: Result<(), String>)
    ensures
        match r {
            Ok(_) => all_patterns(names@),
            Err(message) => exists|i: int|
                0 <= i < names@.len() && !is_pattern(#[trigger] names@[i]@) && all_patterns(names@.take(i))
                    && message@ == invalid_name(names@[i]@),
        },
{
    let mut i: usize = 0;
    while i < names.len()
        invariant
            i <= names.len(),
            all_patterns(names@.take(i as int)),
        decreases names.len() - i,
    {
        match check_pattern(names[i].as_str()) {
            Ok(_) => {
                proof {
                    assert forall|j: int| 0 <= j < i + 1 implies is_pattern(#[trigger] names@.take(i + 1)[j]@) by {
                        if j < i {
                            assert(names@.take(i as int)[j] == names@[j]);
                        }
                    }
                }
            },
            Err(_) => {
                let mut message = String::from_str("Invalid --name \"");
                message.append(names[i].as_str());
                message.append("\"");
                return Err(message);
            },
        }
        i += 1;
    }
    proof {
        assert(names@.take(i as int) == names@);
    }
    Ok(())
}

/// Tells whether `kinds` holds `kind`.
fn has_kind(kinds: &Vec<EntryType>, kind: EntryType) -> (b: bool)
    ensures
        b == kinds@.contains(kind),
{
    let mut i: usize = 0;
    while i < kinds.len()
        invariant
            i <= kinds.len(),
            forall|j: int| 0 <= j < i ==> kinds@[j] != kind,
        decreases kinds.len() - i,
    {
        if kinds[i] == kind {
            return true;
        }
        i += 1;
    }
    false
}

impl Config {
    /// How often `entry` is listed.
    pub fn times_listed(&self, entry: &Entry) -> (n: usize)
        ensures
            n == listings(*self, *entry),
    {
        let mut n: usize = 0;
        if entry.is_dir && has_kind(&self.entry_types, EntryType::Dir) {
            if is_match(&self.names, entry.file_name.as_str()) {
                n += 1;
            }
        }
        if entry.is_symlink && has_kind(&self.entry_types, EntryType::Link) {
            if is_match(&self.names, entry.file_name.as_str()) {
                n += 1;
            }
        }
        if entry.is_file && has_kind(&self.entry_types, EntryType::File) {
            if is_match(&self.names, entry.file_name.as_str()) {
                n += 1;
            }
        }
        n
    }
}

} // verus!
