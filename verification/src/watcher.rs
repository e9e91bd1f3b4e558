//! Noticing when the key file changes.
use vstd::prelude::*;

verus! {

/// The SeaHash of `data` (`seahash::hash`).
pub uninterp spec fn seahash_of(data: Seq<u8>) -> u64;

/// `seahash::hash`: the SeaHash of `data`, with the crate's fixed seeds. Its
/// contract names the result and says nothing more of it.
#[verifier::external_body]
fn seahash(data: &[u8]) -> (h: u64)
    ensures
        h == seahash_of(data@),
{
    seahash::hash(data)
}

/// The key file, now holding `contents`, must be read: it has not been read
/// yet, or its hash differs from the one remembered.
pub open spec fn must_read(last_hash: Option<u64>, contents: Seq<u8>) -> bool {
    last_hash != Some(seahash_of(contents))
}

/// A key file is read the first time it is seen, and not again while its
/// contents stay the same.
pub proof fn lemma_unchanged_key_file_read_once(contents: Seq<u8>)
    ensures
        must_read(None, contents),
        !must_read(Some(seahash_of(contents)), contents),
{
}

/// A remembered hash that differs from the contents' hash always means the
/// key file must be read, one that equals it never does, and with no hash
/// remembered the key file is always read, whatever the contents and their
/// length.
pub proof fn lemma_must_read_exactly_on_change(h: u64, contents: Seq<u8>)
    ensures
        must_read(Some(h), contents) == (h != seahash_of(contents)),
        must_read(None, contents),
{
}

/// Remembers the hash of the key file's contents when it was last read.
pub struct KeyfileWatcher {
    last_hash: Option<u64>,
}

impl View for KeyfileWatcher {
    type V = Option<u64>;

    closed spec fn view(&self) -> Option<u64> {
        self.last_hash
    }
}

impl KeyfileWatcher {
    /// A watcher that has not read the key file yet.
    pub fn new() -> (r: KeyfileWatcher)
        ensures
            r@ is None,
    {
        KeyfileWatcher { last_hash: None }
    }

    /// The key file's contents now hash to `hash`: whether it must be read
    /// (it has not been, or `hash` differs from the last hash); `hash` is
    /// remembered.
    pub fn hash_changed(&mut self, hash: u64) -> (changed: bool)
        ensures
            changed == (old(self)@ != Some(hash)),
            final(self)@ == Some(hash),
    {
        match self.last_hash {
            Some(old_hash) => {
                if hash != old_hash {
                    self.last_hash = Some(hash);
                    true
                } else {
                    false
                }
            },
            None => {
                self.last_hash = Some(hash);
                true
            },
        }
    }

    /// The key file now holds `contents`: whether it must be read (it has not
    /// been, or its hash differs from the last one); the hash is remembered.
    pub fn key_file_changed(&mut self, contents: &[u8]) -> (changed: bool)
        ensures
            changed == must_read(old(self)@, contents@),
            old(self)@ is None ==> changed,
            old(self)@ matches Some(h) ==> changed == (h != seahash_of(contents@)),
            final(self)@ == Some(seahash_of(contents@)),
    {
        let hash = seahash(contents);
        self.hash_changed(hash)
    }
}

} // verus!
