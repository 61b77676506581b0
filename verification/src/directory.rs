//! The names of the files of a tree, and which files of a directory are
//! left over.

use crate::key::{
    hex_string, is_key_hex, lemma_hex_string_has_no_dot, lemma_hex_string_len, KEY_SIZE,
};
use crate::state::State;
use vstd::prelude::*;
use vstd::string::*;

verus! {

/// The position of the last dot in a name, or `-1` where it has none.
pub open spec fn last_dot(name: Seq<char>) -> int
    decreases name.len(),
{
    if name.len() == 0 {
        -1
    } else if name.last() == '.' {
        name.len() - 1
    } else {
        last_dot(name.drop_last())
    }
}

/// A file name without its extension: the part before the last dot, or the
/// whole name where it has no dot or only one at its start.
pub open spec fn stem(name: Seq<char>) -> Seq<char> {
    if last_dot(name) <= 0 {
        name
    } else {
        name.take(last_dot(name))
    }
}

/// Of the names of a directory, in their order, those whose stem is not
/// among the allowed ones.
pub open spec fn garbage(names: Seq<Seq<char>>, allowed: Seq<Seq<char>>) -> Seq<Seq<char>>
    decreases names.len(),
{
    if names.len() == 0 {
        Seq::empty()
    } else if allowed.contains(stem(names.last())) {
        garbage(names.drop_last(), allowed)
    } else {
        garbage(names.drop_last(), allowed).push(names.last())
    }
}

pub proof fn lemma_last_dot_range(name: Seq<char>)
    ensures
        -1 <= last_dot(name) < name.len(),
        last_dot(name) >= 0 ==> name[last_dot(name)] == '.',
        forall|i: int| last_dot(name) < i < name.len() ==> name[i] != '.',
    decreases name.len(),
{
    if name.len() > 0 && name.last() != '.' {
        let shorter = name.drop_last();
        lemma_last_dot_range(shorter);
        assert forall|i: int| last_dot(name) < i < name.len() implies name[i] != '.' by {
            if i < shorter.len() {
                assert(shorter[i] == name[i]);
            }
        }
    }
}

/// A name made of an identifier without dots, a dot and an extension without
/// dots has the identifier as its stem.
pub proof fn lemma_stem_of_named(id: Seq<char>, extension: Seq<char>)
    requires
        id.len() > 0,
        forall|i: int| 0 <= i < id.len() ==> id[i] != '.',
        forall|i: int| 0 <= i < extension.len() ==> extension[i] != '.',
    ensures
        stem(id + seq!['.'] + extension) == id,
    decreases extension.len(),
{
    let name = id + seq!['.'] + extension;
    if extension.len() == 0 {
        assert(name.last() == '.');
        assert(name.take(id.len() as int) =~= id);
    } else {
        let shorter = extension.drop_last();
        assert(name.last() == extension.last());
        assert(name.drop_last() =~= id + seq!['.'] + shorter);
        lemma_stem_of_named(id, shorter);
        lemma_last_dot_range(name.drop_last());
        assert(last_dot(name) == last_dot(name.drop_last()));
        assert(last_dot(name.drop_last()) == id.len()) by {
            let d = last_dot(name.drop_last());
            if d <= 0 {
                assert(stem(name.drop_last()) == name.drop_last());
                assert(name.drop_last().len() > id.len());
            } else {
                assert(name.drop_last().take(d).len() == d);
            }
        }
        assert(name.take(id.len() as int) =~= id);
    }
}

/// A name is left over exactly when it is in the directory and its stem is
/// not allowed.
pub proof fn lemma_garbage_contains(names: Seq<Seq<char>>, allowed: Seq<Seq<char>>, name: Seq<char>)
    ensures
        garbage(names, allowed).contains(name) <==> names.contains(name) && !allowed.contains(
            stem(name),
        ),
    decreases names.len(),
{
    if names.len() > 0 {
        let rest = names.drop_last();
        let g = garbage(rest, allowed);
        lemma_garbage_contains(rest, allowed, name);
        if names.contains(name) {
            let i = choose|i: int| 0 <= i < names.len() && names[i] == name;
            if i < names.len() - 1 {
                assert(rest[i] == name);
            }
        }
        if rest.contains(name) {
            let i = choose|i: int| 0 <= i < rest.len() && rest[i] == name;
            assert(names[i] == name);
        }
        assert(names[names.len() - 1] == names.last());
        if !allowed.contains(stem(names.last())) {
            let out = g.push(names.last());
            if out.contains(name) {
                let i = choose|i: int| 0 <= i < out.len() && out[i] == name;
                if i < g.len() {
                    assert(g[i] == name);
                }
            }
            if g.contains(name) {
                let i = choose|i: int| 0 <= i < g.len() && g[i] == name;
                assert(out[i] == name);
            }
            assert(out[out.len() - 1] == names.last());
        }
    }
}

/// The file of a log, of an index or of the records of a table whose
/// identifier is allowed is never left over.
pub proof fn lemma_named_file_is_kept(
    names: Seq<Seq<char>>,
    allowed: Seq<Seq<char>>,
    id: Seq<char>,
    extension: Seq<char>,
)
    requires
        allowed.contains(id),
        id.len() > 0,
        forall|i: int| 0 <= i < id.len() ==> id[i] != '.',
        forall|i: int| 0 <= i < extension.len() ==> extension[i] != '.',
    ensures
        !garbage(names, allowed).contains(id + seq!['.'] + extension),
{
    lemma_stem_of_named(id, extension);
    lemma_garbage_contains(names, allowed, id + seq!['.'] + extension);
}

/// The files of a log or of a table whose identifier is the hexadecimal form
/// of a key, and is allowed, are never left over.
pub proof fn lemma_key_file_is_kept(
    names: Seq<Seq<char>>,
    allowed: Seq<Seq<char>>,
    id: Seq<char>,
    extension: Seq<char>,
)
    requires
        allowed.contains(id),
        is_key_hex(id),
        forall|i: int| 0 <= i < extension.len() ==> extension[i] != '.',
    ensures
        !garbage(names, allowed).contains(id + seq!['.'] + extension),
{
    let bytes = choose|bytes: Seq<u8>| bytes.len() == KEY_SIZE && id == #[trigger] hex_string(bytes);
    lemma_hex_string_len(bytes);
    lemma_hex_string_has_no_dot(bytes);
    lemma_named_file_is_kept(names, allowed, id, extension);
}

/// The name without its extension.
pub fn file_stem(name: &str) -> (s: String)
    ensures
        s@ == stem(name@),
{
    let n = name.unicode_len();
    let mut i: usize = n;
    assert(name@.take(n as int) =~= name@);
    while i > 0
        invariant
            i <= n == name@.len(),
            last_dot(name@) == last_dot(name@.take(i as int)),
        decreases i,
    {
        assert(name@.take(i as int).drop_last() =~= name@.take(i - 1));
        if name.get_char(i - 1) == '.' {
            proof {
                lemma_last_dot_range(name@);
            }
            if i - 1 == 0 {
                return name.to_owned();
            }
            return name.substring_char(0, i - 1).to_owned();
        }
        i -= 1;
    }
    name.to_owned()
}

/// Whether `id` is among `allowed`.
pub fn is_allowed(allowed: &Vec<String>, id: &String) -> (r: bool)
    ensures
        r == allowed.deep_view().contains(id@),
{
    let mut i: usize = 0;
    while i < allowed.len()
        invariant
            i <= allowed@.len(),
            forall|j: int| 0 <= j < i ==> allowed.deep_view()[j] != id@,
        decreases allowed@.len() - i,
    {
        if allowed[i] == *id {
            assert(allowed.deep_view()[i as int] == id@);
            return true;
        }
        i += 1;
    }
    false
}

/// Decides which entries of a directory to remove: those whose name without
/// its extension is not among `allowed`, in the order in which they are
/// listed.
pub fn drain_dir(names: &Vec<String>, allowed: &Vec<String>) -> (out: Vec<String>)
    ensures
        out.deep_view() == garbage(names.deep_view(), allowed.deep_view()),
{
    let mut out: Vec<String> = Vec::new();
    let mut i: usize = 0;
    assert(names.deep_view().take(0) =~= Seq::empty());
    assert(out.deep_view() =~= Seq::empty());
    while i < names.len()
        invariant
            i <= names@.len(),
            out.deep_view() == garbage(names.deep_view().take(i as int), allowed.deep_view()),
        decreases names@.len() - i,
    {
        let ghost before = out.deep_view();
        let ghost prefix = names.deep_view().take(i + 1);
        assert(prefix.drop_last() =~= names.deep_view().take(i as int));
        assert(prefix.last() == names@[i as int]@);
        let name = file_stem(names[i].as_str());
        if !is_allowed(allowed, &name) {
            out.push(names[i].clone());
            assert(out.deep_view() =~= before.push(names@[i as int]@));
        }
        i += 1;
    }
    assert(names.deep_view().take(names@.len() as int) =~= names.deep_view());
    out
}

/// The name of the file of the log with the given identifier.
pub fn wal_file(id: &str) -> (name: String)
    ensures
        name@ == id@ + seq!['.'] + seq!['w', 'a', 'l'],
{
    proof {
        reveal_strlit(".wal");
    }
    let name = id.to_owned().concat(".wal");
    assert(name@ =~= id@ + seq!['.'] + seq!['w', 'a', 'l']);
    name
}

/// The name of the index file of the table with the given identifier.
pub fn offsets_file(id: &str) -> (name: String)
    ensures
        name@ == id@ + seq!['.'] + seq!['o', 'f', 'f', 's', 'e', 't', 's'],
{
    proof {
        reveal_strlit(".offsets");
    }
    let name = id.to_owned().concat(".offsets");
    assert(name@ =~= id@ + seq!['.'] + seq!['o', 'f', 'f', 's', 'e', 't', 's']);
    name
}

/// The name of the records file of the table with the given identifier.
pub fn strings_file(id: &str) -> (name: String)
    ensures
        name@ == id@ + seq!['.'] + seq!['s', 't', 'r', 'i', 'n', 'g', 's'],
{
    proof {
        reveal_strlit(".strings");
    }
    let name = id.to_owned().concat(".strings");
    assert(name@ =~= id@ + seq!['.'] + seq!['s', 't', 'r', 'i', 'n', 'g', 's']);
    name
}

impl State {
    /// The identifiers of the logs that the manifest names: those of the
    /// sealed buffers, then that of the log in use.
    pub fn recognized_wals(&self) -> (ids: Vec<String>)
        ensures
            ids.deep_view() == self.builders.deep_view().push(self.wal@),
    {
        let mut ids: Vec<String> = Vec::new();
        let mut i: usize = 0;
        while i < self.builders.len()
            invariant
                i <= self.builders@.len(),
                ids@.len() == i,
                forall|j: int| 0 <= j < i ==> (#[trigger] ids@[j])@ == self.builders@[j]@,
            decreases self.builders@.len() - i,
        {
            ids.push(self.builders[i].clone());
            i += 1;
        }
        ids.push(self.wal.clone());
        assert(ids.deep_view() =~= self.builders.deep_view().push(self.wal@));
        ids
    }
}

} // verus!
