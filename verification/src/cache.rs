//! Content addresses and cache keys.
//!
//! An artifact is named by the lower-case hex SHA-256 of its bytes. A task's
//! cache key is `task-v1:` followed by the hex SHA-256 of
//! `v1\n{timeout in ms, 0 for none}\n{command}`. The cache index maps keys to
//! artifact names, one entry per key, in the order keys were first recorded,
//! stored one `KEY \t ARTIFACT` line per entry.
use crate::journal::{
    byte_rows, free_of, lemma_ascii_valid, lemma_decimal_free, lemma_split_nonempty, lemma_split_plain,
    lemma_split_sep, lines_of, split_bytes, split_on, strip_cr,
};
use crate::store::{
    lemma_split_first_at, lemma_split_first_none, lemma_text_free_of, lemma_utf8_text_bytes, lemma_valid_after_ascii,
    split_first, storable_status, StoreError,
};
use crate::text::{all_ascii, ascii_chars, ascii_string, decimal, lemma_decimal_digits, push_decimal};
use crate::wire::{ascii_bytes, ascii_word, put_slice, str_from_utf8, utf8_string};
use sha2::Digest;
use vstd::prelude::*;
use vstd::utf8::*;

verus! {

broadcast use {vstd::utf8::encode_utf8_decode_utf8, vstd::string::is_ascii_spec_bytes};

/// The SHA-256 digest of `data`.
pub uninterp spec fn sha256(data: Seq<u8>) -> Seq<u8>;

/// Wraps `sha2::Sha256::digest`: the SHA-256 digest of `data`, which is 32 bytes long.
#[verifier::external_body]
fn sha256_digest(data: &[u8]) -> (r: Vec<u8>)
    ensures
        r@ == sha256(data@),
        r@.len() == 32,
{
    sha2::Sha256::digest(data).to_vec()
}

/// Lower-case hex digit of `n` (below 16).
pub open spec fn hex_digit(n: nat) -> u8 {
    if n < 10 {
        (48 + n) as u8
    } else {
        (87 + n) as u8
    }
}

/// Lower-case hex of bytes, two digits per byte.
pub open spec fn hex_lower(b: Seq<u8>) -> Seq<u8>
    decreases b.len(),
{
    if b.len() == 0 {
        Seq::empty()
    } else {
        hex_lower(b.drop_last()) + seq![hex_digit((b.last() / 16) as nat), hex_digit((b.last() % 16) as nat)]
    }
}

/// Name of the artifact holding `data`: the hex of its SHA-256.
pub open spec fn sha256_hex_text(data: Seq<u8>) -> Seq<char> {
    ascii_chars(hex_lower(sha256(data)))
}

proof fn lemma_hex_ascii(b: Seq<u8>)
    ensures
        all_ascii(hex_lower(b)),
        hex_lower(b).len() == 2 * b.len(),
    decreases b.len(),
{
    if b.len() > 0 {
        lemma_hex_ascii(b.drop_last());
        let h = hex_lower(b);
        let p = hex_lower(b.drop_last());
        assert forall|i: int| 0 <= i < h.len() implies #[trigger] h[i] < 128 by {
            if i < p.len() {
                assert(h[i] == p[i]);
            }
        }
    }
}

fn push_hex(buffer: &mut Vec<u8>, bytes: &[u8])
    ensures
        final(buffer)@ == old(buffer)@ + hex_lower(bytes@),
{
    let mut i: usize = 0;
    while i < bytes.len()
        invariant
            i <= bytes.len(),
            buffer@ == old(buffer)@ + hex_lower(bytes@.take(i as int)),
        decreases bytes.len() - i,
    {
        let b = bytes[i];
        let hi = b / 16;
        let lo = b % 16;
        buffer.push(if hi < 10 { 48 + hi } else { 87 + hi });
        buffer.push(if lo < 10 { 48 + lo } else { 87 + lo });
        proof {
            assert(bytes@.take(i + 1).drop_last() =~= bytes@.take(i as int));
            assert(bytes@.take(i + 1).last() == b);
            assert(buffer@ =~= old(buffer)@ + hex_lower(bytes@.take(i + 1)));
        }
        i += 1;
    }
    assert(bytes@.take(bytes@.len() as int) =~= bytes@);
}

/// The hex SHA-256 of `data`: the name of the artifact that holds it.
pub fn sha256_hex(data: &[u8]) -> (s: String)
    ensures
        s@ == sha256_hex_text(data@),
        s@.len() == 64,
{
    let digest = sha256_digest(data);
    let mut out: Vec<u8> = Vec::new();
    push_hex(&mut out, digest.as_slice());
    proof {
        lemma_hex_ascii(digest@);
        assert(out@ =~= hex_lower(sha256(data@)));
    }
    ascii_string(out.as_slice())
}

/// The bytes hashed into a cache key.
pub open spec fn key_material(command: Seq<char>, timeout_ms: Option<u64>) -> Seq<u8> {
    ascii_bytes("v1\n"@) + decimal(
        match timeout_ms {
            Some(t) => t as nat,
            None => 0,
        },
    ) + seq![10u8] + encode_utf8(command)
}

/// The cache key of a task.
pub open spec fn cache_key_text(command: Seq<char>, timeout_ms: Option<u64>) -> Seq<char> {
    "task-v1:"@ + sha256_hex_text(key_material(command, timeout_ms))
}

/// The cache key of a task with `command` and timeout (`None`: no timeout, keyed as 0 ms).
pub fn cache_key(command: &str, timeout_ms: Option<u64>) -> (key: String)
    ensures
        key@ == cache_key_text(command@, timeout_ms),
{
    proof {
        reveal_strlit("v1\n");
        reveal_strlit("task-v1:");
    }
    let mut material: Vec<u8> = Vec::new();
    put_slice(&mut material, ascii_word("v1\n"));
    push_decimal(
        &mut material,
        match timeout_ms {
            Some(t) => t,
            None => 0,
        },
    );
    material.push(10);
    put_slice(&mut material, command.as_bytes());
    assert(material@ =~= key_material(command@, timeout_ms));
    let digest = sha256_digest(material.as_slice());
    let mut out: Vec<u8> = Vec::new();
    put_slice(&mut out, ascii_word("task-v1:"));
    push_hex(&mut out, digest.as_slice());
    proof {
        lemma_hex_ascii(digest@);
        let prefix = ascii_bytes("task-v1:"@);
        assert(out@ =~= prefix + hex_lower(digest@));
        assert forall|i: int| 0 <= i < out@.len() implies #[trigger] out@[i] < 128 by {
            if i >= prefix.len() {
                assert(out@[i] == hex_lower(digest@)[i - prefix.len()]);
            }
        }
        assert(ascii_chars(out@) =~= "task-v1:"@ + ascii_chars(hex_lower(digest@)));
    }
    ascii_string(out.as_slice())
}

/// Different commands or timeouts give different key material: keys of two tasks
/// differ unless the tasks agree on command and timeout (a missing timeout counts
/// as 0 ms) or SHA-256 collides.
pub proof fn lemma_key_material_injective(c1: Seq<char>, t1: Option<u64>, c2: Seq<char>, t2: Option<u64>)
    requires
        key_material(c1, t1) == key_material(c2, t2),
    ensures
        c1 == c2,
        (match t1 {
            Some(t) => t as nat,
            None => 0nat,
        }) == (match t2 {
            Some(t) => t as nat,
            None => 0nat,
        }),
{
    reveal_strlit("v1\n");
    let n1: nat = match t1 {
        Some(t) => t as nat,
        None => 0,
    };
    let n2: nat = match t2 {
        Some(t) => t as nat,
        None => 0,
    };
    let m = key_material(c1, t1);
    let d1 = decimal(n1);
    let d2 = decimal(n2);
    lemma_decimal_free(n1);
    lemma_decimal_free(n2);
    let rest1 = d1 + seq![10u8] + encode_utf8(c1);
    let rest2 = d2 + seq![10u8] + encode_utf8(c2);
    let p = ascii_bytes("v1\n"@);
    assert(m.skip(3) =~= rest1);
    assert(key_material(c2, t2).skip(3) =~= rest2);
    lemma_first_newline(d1, encode_utf8(c1));
    lemma_first_newline(d2, encode_utf8(c2));
    if d1.len() < d2.len() {
        assert(rest1[d1.len() as int] == 10u8);
        assert(rest2[d1.len() as int] == d2[d1.len() as int]);
        assert(false);
    } else if d2.len() < d1.len() {
        assert(rest2[d2.len() as int] == 10u8);
        assert(rest1[d2.len() as int] == d1[d2.len() as int]);
        assert(false);
    }
    assert(d1 =~= rest1.take(d1.len() as int));
    assert(d2 =~= rest2.take(d2.len() as int));
    lemma_decimal_digits(n1);
    lemma_decimal_digits(n2);
    assert(encode_utf8(c1) =~= rest1.skip(d1.len() + 1int));
    assert(encode_utf8(c2) =~= rest2.skip(d2.len() + 1int));
    assert(decode_utf8(encode_utf8(c1)) == decode_utf8(encode_utf8(c2)));
}

proof fn lemma_first_newline(d: Seq<u8>, e: Seq<u8>)
    requires
        free_of(d, 10),
    ensures
        (d + seq![10u8] + e)[d.len() as int] == 10u8,
        forall|i: int| 0 <= i < d.len() ==> #[trigger] (d + seq![10u8] + e)[i] == d[i],
{
}

// ---------------------------------------------------------------------------
// Cache index
// ---------------------------------------------------------------------------

/// A cache key and the artifact it names.
#[derive(Debug, Clone, PartialEq, Eq)]
pub struct CacheEntry {
    pub key: String,
    pub artifact_hash: String,
}

pub struct CacheEntryView {
    pub key: Seq<char>,
    pub artifact_hash: Seq<char>,
}

impl View for CacheEntry {
    type V = CacheEntryView;

    open spec fn view(&self) -> CacheEntryView {
        CacheEntryView { key: self.key@, artifact_hash: self.artifact_hash@ }
    }
}

/// Some entry has `key`.
pub open spec fn has_key(entries: Seq<CacheEntryView>, key: Seq<char>) -> bool {
    exists|i: int| 0 <= i < entries.len() && #[trigger] entries[i].key == key
}

/// Position of the entry for `key`.
pub open spec fn key_index(entries: Seq<CacheEntryView>, key: Seq<char>) -> int {
    choose|i: int| 0 <= i < entries.len() && #[trigger] entries[i].key == key
}

/// One entry per key.
pub open spec fn keys_unique(entries: Seq<CacheEntryView>) -> bool {
    forall|i: int, j: int|
        0 <= i < entries.len() && 0 <= j < entries.len() && i != j ==> #[trigger] entries[i].key != #[trigger] entries[j].key
}

/// Entries after recording `e`, replacing the entry of the same key.
pub open spec fn entry_inserted(entries: Seq<CacheEntryView>, e: CacheEntryView) -> Seq<CacheEntryView> {
    if has_key(entries, e.key) {
        entries.update(key_index(entries, e.key), e)
    } else {
        entries.push(e)
    }
}

/// The line of an entry (without its newline).
pub open spec fn entry_line(e: CacheEntryView) -> Seq<u8> {
    encode_utf8(e.key) + seq![9u8] + encode_utf8(e.artifact_hash)
}

/// An index file holding `entries`.
pub open spec fn render_index(entries: Seq<CacheEntryView>) -> Seq<u8>
    decreases entries.len(),
{
    if entries.len() == 0 {
        Seq::empty()
    } else {
        render_index(entries.drop_last()) + entry_line(entries.last()) + seq![10u8]
    }
}

/// The index of cache keys to artifacts.
#[derive(Debug)]
pub struct CacheStore {
    entries: Vec<CacheEntry>,
}

impl View for CacheStore {
    type V = Seq<CacheEntryView>;

    closed spec fn view(&self) -> Seq<CacheEntryView> {
        self.entries@.map_values(|e: CacheEntry| e@)
    }
}

pub(crate) proof fn lemma_key_index(entries: Seq<CacheEntryView>, key: Seq<char>, i: int)
    requires
        keys_unique(entries),
        0 <= i < entries.len(),
        entries[i].key == key,
    ensures
        has_key(entries, key),
        key_index(entries, key) == i,
{
    let j = key_index(entries, key);
    assert(entries[i].key == key);
}

impl CacheStore {
    /// One entry per key.
    pub open spec fn wf(&self) -> bool {
        keys_unique(self@)
    }

    /// An empty index.
    pub fn new() -> (s: Self)
        ensures
            s@ == Seq::<CacheEntryView>::empty(),
            s.wf(),
    {
        let s = CacheStore { entries: Vec::new() };
        assert(s@ =~= Seq::<CacheEntryView>::empty());
        s
    }

    /// Number of entries.
    pub fn len(&self) -> (n: usize)
        ensures
            n == self@.len(),
    {
        self.entries.len()
    }

    fn position(&self, key: &str) -> (r: Option<usize>)
        requires
            self.wf(),
        ensures
            match r {
                Some(i) => i < self@.len() && self@[i as int].key == key@ && key_index(self@, key@) == i && has_key(
                    self@,
                    key@,
                ),
                None => !has_key(self@, key@),
            },
    {
        let mut i: usize = 0;
        while i < self.entries.len()
            invariant
                i <= self.entries.len(),
                self.wf(),
                forall|j: int| 0 <= j < i ==> #[trigger] self@[j].key != key@,
            decreases self.entries.len() - i,
        {
            if crate::registry::text_eq(self.entries[i].key.as_str(), key) {
                proof {
                    lemma_key_index(self@, key@, i as int);
                }
                return Some(i);
            }
            i += 1;
        }
        None
    }

    /// The entry for `key`.
    pub fn lookup(&self, key: &str) -> (r: Option<&CacheEntry>)
        requires
            self.wf(),
        ensures
            match r {
                Some(e) => has_key(self@, key@) && e@ == self@[key_index(self@, key@)],
                None => !has_key(self@, key@),
            },
    {
        match self.position(key) {
            Some(i) => Some(&self.entries[i]),
            None => None,
        }
    }

    /// Records that `key` names the artifact `artifact_hash`.
    pub fn insert(&mut self, key: String, artifact_hash: String)
        requires
            old(self).wf(),
        ensures
            final(self).wf(),
            final(self)@ == entry_inserted(old(self)@, CacheEntryView { key: key@, artifact_hash: artifact_hash@ }),
    {
        let ghost before = self@;
        let entry = CacheEntry { key, artifact_hash };
        let ghost ev = entry@;
        match self.position(entry.key.as_str()) {
            Some(i) => {
                self.entries.remove(i);
                self.entries.insert(i, entry);
                assert(self@ =~= before.update(i as int, ev));
                assert forall|x: int, y: int| 0 <= x < self@.len() && 0 <= y < self@.len() && x != y implies #[trigger] self@[x].key
                    != #[trigger] self@[y].key by {
                    assert(self@[x].key == before[x].key && self@[y].key == before[y].key);
                }
            },
            None => {
                self.entries.push(entry);
                assert(self@ =~= before.push(ev));
                assert forall|x: int, y: int| 0 <= x < self@.len() && 0 <= y < self@.len() && x != y implies #[trigger] self@[x].key
                    != #[trigger] self@[y].key by {
                    if x < before.len() {
                        assert(self@[x] == before[x]);
                    }
                    if y < before.len() {
                        assert(self@[y] == before[y]);
                    }
                }
            },
        }
    }

    /// The index file holding these entries.
    pub fn render(&self) -> (out: Vec<u8>)
        ensures
            out@ == render_index(self@),
    {
        let mut out: Vec<u8> = Vec::new();
        let mut i: usize = 0;
        proof {
            assert(self@.take(0) =~= Seq::<CacheEntryView>::empty());
        }
        while i < self.entries.len()
            invariant
                i <= self.entries.len(),
                out@ == render_index(self@.take(i as int)),
            decreases self.entries.len() - i,
        {
            let e = &self.entries[i];
            put_slice(&mut out, e.key.as_str().as_bytes());
            out.push(9);
            put_slice(&mut out, e.artifact_hash.as_str().as_bytes());
            out.push(10);
            proof {
                assert(self@.take(i + 1).drop_last() =~= self@.take(i as int));
                assert(self@.take(i + 1).last() == e@);
                assert(out@ =~= render_index(self@.take(i as int)) + entry_line(e@) + seq![10u8]);
            }
            i += 1;
        }
        assert(self@.take(self@.len() as int) =~= self@);
        out
    }
}

// ---------------------------------------------------------------------------
// Reading an index file
// ---------------------------------------------------------------------------

/// The entry a line holds: the text before its first tab is the key, the rest
/// the artifact name; a line without a tab holds none.
pub open spec fn parse_entry(line: Seq<u8>) -> Option<CacheEntryView> {
    match split_first(line, 9) {
        None => None,
        Some((k, h)) => Some(CacheEntryView { key: decode_utf8(k), artifact_hash: decode_utf8(h) }),
    }
}

/// Entries read from `lines[..n]`; a later line for a key replaces an earlier one.
pub open spec fn index_upto(lines: Seq<Seq<u8>>, n: int) -> Result<Seq<CacheEntryView>, StoreError>
    decreases n,
{
    if n <= 0 {
        Ok(Seq::empty())
    } else {
        match index_upto(lines, n - 1) {
            Err(e) => Err(e),
            Ok(entries) => if !valid_utf8(lines[n - 1]) {
                Err(StoreError::InvalidUtf8)
            } else {
                match parse_entry(lines[n - 1]) {
                    None => Ok(entries),
                    Some(e) => Ok(entry_inserted(entries, e)),
                }
            },
        }
    }
}

/// Entries read from an index file.
pub open spec fn parse_index(content: Seq<u8>) -> Result<Seq<CacheEntryView>, StoreError> {
    index_upto(lines_of(content), lines_of(content).len() as int)
}

proof fn lemma_index_error_persists(lines: Seq<Seq<u8>>, k: int, n: int)
    requires
        0 <= k <= n,
        index_upto(lines, k) is Err,
    ensures
        index_upto(lines, n) == index_upto(lines, k),
    decreases n - k,
{
    if k < n {
        lemma_index_error_persists(lines, k, n - 1);
    }
}

/// The entry of a line that is valid UTF-8.
fn parse_entry_line(line: &[u8]) -> (r: Option<CacheEntry>)
    requires
        valid_utf8(line@),
    ensures
        match parse_entry(line@) {
            Some(e) => r matches Some(x) && x@ == e,
            None => r is None,
        },
{
    let mut i: usize = 0;
    while i < line.len() && line[i] != 9
        invariant
            i <= line.len(),
            forall|j: int| 0 <= j < i ==> #[trigger] line@[j] != 9,
        decreases line.len() - i,
    {
        i += 1;
    }
    if i == line.len() {
        proof {
            lemma_split_first_none(line@, 9);
        }
        return None;
    }
    proof {
        lemma_split_first_at(line@, 9, i as int);
        lemma_valid_after_ascii(line@, i as int);
    }
    let key_bytes = &line[0..i];
    let hash_bytes = &line[i + 1..line.len()];
    assert(key_bytes@ =~= line@.take(i as int));
    assert(hash_bytes@ =~= line@.skip(i + 1));
    match (utf8_string(key_bytes), utf8_string(hash_bytes)) {
        (Some(key), Some(artifact_hash)) => Some(CacheEntry { key, artifact_hash }),
        _ => None,
    }
}

impl CacheStore {
    /// The entries of an index file.
    pub fn parse(content: &[u8]) -> (r: Result<CacheStore, StoreError>)
        ensures
            match parse_index(content@) {
                Ok(entries) => r matches Ok(s) && s@ == entries && s.wf(),
                Err(e) => r matches Err(e2) && e2 == e,
            },
    {
        let pieces = split_bytes(content, 10);
        let ghost p = byte_rows(pieces@);
        proof {
            lemma_split_nonempty(content@, 10);
        }
        let n = pieces.len();
        let ghost lines = lines_of(content@);
        let count = if pieces[n - 1].len() > 0 { n } else { n - 1 };
        assert(lines.len() == count);
        let mut store = CacheStore::new();
        let mut i: usize = 0;
        while i < count
            invariant
                i <= count,
                count == lines.len(),
                n == pieces@.len(),
                n > 0,
                p == byte_rows(pieces@),
                lines == lines_of(content@),
                p == split_on(content@, 10),
                store.wf(),
                index_upto(lines, i as int) == Ok::<Seq<CacheEntryView>, StoreError>(store@),
            decreases count - i,
        {
            let piece = pieces[i].as_slice();
            assert(piece@ == p[i as int]);
            let line: &[u8] = if i + 1 < n && piece.len() > 0 && piece[piece.len() - 1] == 13 {
                &piece[0..piece.len() - 1]
            } else {
                piece
            };
            assert(line@ == lines[i as int]) by {
                if i + 1 < n {
                    if piece@.len() > 0 && piece@.last() == 13 {
                        assert(line@ =~= piece@.drop_last());
                    }
                }
            }
            if str_from_utf8(line).is_none() {
                proof {
                    lemma_index_error_persists(lines, i + 1, count as int);
                }
                return Err(StoreError::InvalidUtf8);
            }
            match parse_entry_line(line) {
                Some(entry) => store.insert(entry.key, entry.artifact_hash),
                None => {},
            }
            i += 1;
        }
        Ok(store)
    }
}

// ---------------------------------------------------------------------------
// Laws
// ---------------------------------------------------------------------------

/// An entry that survives an index file: a key without tab or newline, and an
/// artifact name without newline and without a final carriage return.
pub open spec fn storable_entry(e: CacheEntryView) -> bool {
    &&& forall|i: int| 0 <= i < e.key.len() ==> #[trigger] e.key[i] != '\t' && e.key[i] != '\n'
    &&& storable_status(e.artifact_hash)
}

proof fn lemma_entry_line(e: CacheEntryView)
    requires
        storable_entry(e),
    ensures
        free_of(entry_line(e), 10),
        entry_line(e).len() > 0,
        entry_line(e).last() != 13,
        valid_utf8(entry_line(e)),
        parse_entry(entry_line(e)) == Some(e),
{
    let k = encode_utf8(e.key);
    let h = encode_utf8(e.artifact_hash);
    let line = entry_line(e);
    assert forall|i: int| 0 <= i < e.key.len() implies (#[trigger] e.key[i]) as u32 != 9u8 as u32 && e.key[i] as u32
        != 10u8 as u32 by {
        assert(e.key[i] != '\t' && e.key[i] != '\n');
        vstd::utf8::char_u32_cast(e.key[i], e.key[i] as u32);
    }
    lemma_text_free_of(e.key, 9);
    lemma_text_free_of(e.key, 10);
    encode_utf8_valid_utf8(e.key);
    encode_utf8_valid_utf8(e.artifact_hash);
    lemma_utf8_text_bytes(e.artifact_hash);
    assert forall|j: int| 0 <= j < line.len() implies #[trigger] line[j] != 10 by {
        if j < k.len() {
            assert(line[j] == k[j]);
        } else if j == k.len() {
        } else {
            assert(line[j] == h[j - k.len() - 1]);
        }
    }
    if e.artifact_hash.len() > 0 {
        assert(line.last() == h.last());
    } else {
        assert(h.len() == 0) by {
            assert(e.artifact_hash =~= Seq::<char>::empty());
        }
        assert(line.last() == 9);
    }
    assert(valid_utf8(seq![9u8])) by {
        lemma_ascii_valid(seq![9u8]);
    }
    valid_utf8_concat(k, seq![9u8]);
    valid_utf8_concat(k + seq![9u8], h);
    assert forall|j: int| 0 <= j < k.len() implies #[trigger] line[j] != 9 by {
        assert(line[j] == k[j]);
    }
    lemma_split_first_at(line, 9, k.len() as int);
    assert(line.take(k.len() as int) =~= k);
    assert(line.skip(k.len() + 1int) =~= h);
}

proof fn lemma_index_lines(entries: Seq<CacheEntryView>)
    requires
        forall|i: int| 0 <= i < entries.len() ==> storable_entry(#[trigger] entries[i]),
    ensures
        split_on(render_index(entries), 10) == entries.map_values(|e: CacheEntryView| entry_line(e)).push(
            Seq::empty(),
        ),
    decreases entries.len(),
{
    let lines = entries.map_values(|e: CacheEntryView| entry_line(e));
    if entries.len() == 0 {
        assert(render_index(entries) =~= Seq::<u8>::empty());
        assert(lines =~= Seq::<Seq<u8>>::empty());
    } else {
        let prev = entries.drop_last();
        assert forall|i: int| 0 <= i < prev.len() implies storable_entry(#[trigger] prev[i]) by {
            assert(prev[i] == entries[i]);
        }
        lemma_index_lines(prev);
        let e = entries.last();
        assert(storable_entry(e)) by {
            assert(entries[entries.len() - 1] == e);
        }
        lemma_entry_line(e);
        let j = render_index(prev);
        lemma_split_plain(j, entry_line(e), 10);
        lemma_split_sep(j + entry_line(e), 10);
        assert(render_index(entries) =~= (j + entry_line(e)).push(10u8));
        assert(prev.map_values(|e: CacheEntryView| entry_line(e)).push(entry_line(e)) =~= lines);
        assert(split_on(j, 10).last() + entry_line(e) =~= entry_line(e));
        assert(split_on(j + entry_line(e), 10) =~= lines);
    }
}

proof fn lemma_index_prefix(entries: Seq<CacheEntryView>, n: int)
    requires
        keys_unique(entries),
        forall|i: int| 0 <= i < entries.len() ==> storable_entry(#[trigger] entries[i]),
        0 <= n <= entries.len(),
    ensures
        index_upto(entries.map_values(|e: CacheEntryView| entry_line(e)), n) == Ok::<
            Seq<CacheEntryView>,
            StoreError,
        >(entries.take(n)),
    decreases n,
{
    if n > 0 {
        lemma_index_prefix(entries, n - 1);
        let e = entries[n - 1];
        lemma_entry_line(e);
        assert(!has_key(entries.take(n - 1), e.key)) by {
            if has_key(entries.take(n - 1), e.key) {
                let i = choose|i: int| 0 <= i < n - 1 && #[trigger] entries.take(n - 1)[i].key == e.key;
                assert(entries[i].key == entries[n - 1].key);
            }
        }
        assert(entries.take(n) =~= entries.take(n - 1).push(e));
    } else {
        assert(entries.take(0) =~= Seq::<CacheEntryView>::empty());
    }
}

/// Reading back a rendered index gives the same entries, when no key holds a
/// tab or newline and no artifact name holds a newline or ends with a carriage
/// return.
pub proof fn lemma_index_round_trip(entries: Seq<CacheEntryView>)
    requires
        keys_unique(entries),
        forall|i: int| 0 <= i < entries.len() ==> storable_entry(#[trigger] entries[i]),
    ensures
        parse_index(render_index(entries)) == Ok::<Seq<CacheEntryView>, StoreError>(entries),
{
    let content = render_index(entries);
    let lines = entries.map_values(|e: CacheEntryView| entry_line(e));
    lemma_index_lines(entries);
    let pieces = split_on(content, 10);
    assert(lines_of(content) =~= lines) by {
        assert forall|i: int| 0 <= i < lines.len() implies #[trigger] strip_cr(pieces[i]) == lines[i] by {
            lemma_entry_line(entries[i]);
        }
    }
    lemma_index_prefix(entries, entries.len() as int);
    assert(entries.take(entries.len() as int) =~= entries);
}

} // verus!
