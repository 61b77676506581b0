//! The manifest: the names of the files that make up the tree.

use vstd::prelude::*;

verus! {

/// `bincode::ErrorKind`, taken as it is: the error of an encoding or a
/// decoding, of which only that it occurred is used.
#[verifier::external_type_specification]
#[verifier::external_body]
pub struct ExErrorKind(bincode::ErrorKind);

/// The manifest of a tree: the identifier of the log in use, those of the
/// sealed buffers from the most recent to the oldest, and those of the
/// tables from the youngest to the oldest.
#[derive(Debug, Clone, PartialEq, Eq)]
pub struct State {
    pub wal: String,
    pub builders: Vec<String>,
    pub tables: Vec<String>,
}

/// Why a manifest could not be written or read.
#[derive(Debug, Clone, Copy, PartialEq, Eq)]
pub enum StateError {
    /// The encoder reported an error.
    Encode,
    /// The bytes are not the encoding of a manifest.
    Decode,
}

/// The bytes that `bincode` encodes a manifest as, or `None` where it
/// reports an error.
pub uninterp spec fn manifest_bytes(
    wal: Seq<char>,
    builders: Seq<Seq<char>>,
    tables: Seq<Seq<char>>,
) -> Option<Seq<u8>>;

/// The manifest that `bincode` decodes bytes to, or `None` where it reports
/// an error.
pub uninterp spec fn manifest_parse(bytes: Seq<u8>) -> Option<
    (Seq<char>, Seq<Seq<char>>, Seq<Seq<char>>),
>;

/// Calls `bincode::serialize` on the three fields of a manifest, in order.
/// What comes back is named, not described: it depends on the fields alone.
#[verifier::external_body]
fn encode_manifest(wal: &String, builders: &Vec<String>, tables: &Vec<String>) -> (r: Result<
    Vec<u8>,
    Box<bincode::ErrorKind>,
>)
    ensures
        match r {
            Ok(bytes) => manifest_bytes(wal@, builders.deep_view(), tables.deep_view()) == Some(
                bytes@,
            ),
            Err(_) => manifest_bytes(wal@, builders.deep_view(), tables.deep_view()) is None,
        },
{
    bincode::serialize(&(wal, builders, tables))
}

/// Calls `bincode::deserialize` for the three fields of a manifest, in
/// order. What comes back is named, not described: it depends on the bytes
/// alone.
#[verifier::external_body]
fn decode_manifest(bytes: &[u8]) -> (r: Result<
    (String, Vec<String>, Vec<String>),
    Box<bincode::ErrorKind>,
>)
    ensures
        match r {
            Ok(fields) => manifest_parse(bytes@) == Some(
                (fields.0@, fields.1.deep_view(), fields.2.deep_view()),
            ),
            Err(_) => manifest_parse(bytes@) is None,
        },
{
    bincode::deserialize::<(String, Vec<String>, Vec<String>)>(bytes)
}

impl State {
    /// The three lists of identifiers, as sequences of characters.
    pub open spec fn names(&self) -> (Seq<char>, Seq<Seq<char>>, Seq<Seq<char>>) {
        (self.wal@, self.builders.deep_view(), self.tables.deep_view())
    }

    pub fn new(wal: String, builders: Vec<String>, tables: Vec<String>) -> (s: State)
        ensures
            s.wal == wal,
            s.builders == builders,
            s.tables == tables,
    {
        State { wal, builders, tables }
    }

    /// The manifest that the bytes of a manifest file hold.
    pub fn load(bytes: &[u8]) -> (r: Result<State, StateError>)
        ensures
            match r {
                Ok(s) => manifest_parse(bytes@) == Some(s.names()),
                Err(e) => manifest_parse(bytes@) is None && e == StateError::Decode,
            },
    {
        match decode_manifest(bytes) {
            Ok(fields) => Ok(State::new(fields.0, fields.1, fields.2)),
            Err(_) => Err(StateError::Decode),
        }
    }

    /// The bytes to put in the manifest file. The bytes are read back before
    /// they are handed out: bytes that would not load as this manifest are
    /// never returned.
    pub fn save(&self) -> (r: Result<Vec<u8>, StateError>)
        ensures
            match r {
                Ok(bytes) => saved_as(self.names(), bytes@),
                Err(e) => e == StateError::Encode && forall|bytes: Seq<u8>|
                    !saved_as(self.names(), bytes),
            },
    {
        let bytes = match encode_manifest(&self.wal, &self.builders, &self.tables) {
            Ok(bytes) => bytes,
            Err(_) => {
                return Err(StateError::Encode);
            },
        };
        match decode_manifest(bytes.as_slice()) {
            Ok(fields) => {
                if fields.0 == self.wal && same_names(&fields.1, &self.builders) && same_names(
                    &fields.2,
                    &self.tables,
                ) {
                    Ok(bytes)
                } else {
                    Err(StateError::Encode)
                }
            },
            Err(_) => Err(StateError::Encode),
        }
    }
}

/// The bytes are the encoding of the manifest with the given names, and
/// decode to it.
pub open spec fn saved_as(names: (Seq<char>, Seq<Seq<char>>, Seq<Seq<char>>), bytes: Seq<u8>) -> bool {
    &&& manifest_bytes(names.0, names.1, names.2) == Some(bytes)
    &&& manifest_parse(bytes) == Some(names)
}

/// Whether two lists hold the same names in the same order.
fn same_names(a: &Vec<String>, b: &Vec<String>) -> (r: bool)
    ensures
        r == (a.deep_view() == b.deep_view()),
{
    if a.len() != b.len() {
        assert(a.deep_view().len() != b.deep_view().len());
        return false;
    }
    let mut i: usize = 0;
    while i < a.len()
        invariant
            i <= a@.len() == b@.len(),
            forall|j: int| 0 <= j < i ==> a@[j]@ == b@[j]@,
        decreases a@.len() - i,
    {
        if a[i] != b[i] {
            assert(a.deep_view()[i as int] != b.deep_view()[i as int]);
            return false;
        }
        i += 1;
    }
    assert(a.deep_view() =~= b.deep_view());
    true
}

} // verus!
