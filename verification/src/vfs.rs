//! The directory logic of the easy-fs virtual file system layer.
//!
//! A directory's data is a run of 32-byte entries: a 28-byte name field,
//! NUL-padded, then the inode number as a little-endian `u32`.  Here a
//! directory is the list of its entries; reading and writing the blocks that
//! hold them, and allocating inodes and data blocks, are left to the block
//! layer around it.
use vstd::prelude::*;
use vstd::utf8::valid_utf8;

verus! {

/// Longest file name, in bytes.
pub const NAME_LENGTH_LIMIT: usize = 27;

/// Bytes of one directory entry on disk.
pub const DIRENT_SZ: usize = 32;

/// Bytes of the name field of an entry.
pub const NAME_FIELD_LEN: usize = 28;

/// One directory entry.
pub struct DirEntry {
    /// The name field: the name, then NUL bytes.
    pub name: Vec<u8>,
    pub inode_number: u32,
}

/// The field holds a NUL byte.
pub open spec fn has_nul(field: Seq<u8>) -> bool {
    exists|k: int| 0 <= k < field.len() && field[k] == 0
}

/// Position of the first NUL byte of `field`, from `k` on; the length when
/// there is none.
pub open spec fn nul_from(field: Seq<u8>, k: int) -> int
    decreases field.len() - k,
{
    if k < 0 || k >= field.len() {
        field.len() as int
    } else if field[k] == 0 {
        k
    } else {
        nul_from(field, k + 1)
    }
}

/// The name stored in a name field: its bytes up to the first NUL.
pub open spec fn stored_name(field: Seq<u8>) -> Seq<u8> {
    field.take(nul_from(field, 0))
}

/// What the unlink scan compares with `name`: the field's bytes up to the
/// first NUL, but no more than `name.len()` of them.
pub open spec fn scanned_prefix(field: Seq<u8>, name: Seq<u8>) -> Seq<u8> {
    field.take(if nul_from(field, 0) <= name.len() { nul_from(field, 0) } else { name.len() as int })
}

/// The inode of the first entry named `name`, from position `k` on.
pub open spec fn lookup_from(entries: Seq<DirEntry>, name: Seq<u8>, k: int) -> Option<u32>
    decreases entries.len() - k,
{
    if k < 0 || k >= entries.len() {
        None
    } else if stored_name(entries[k].name@) == name {
        Some(entries[k].inode_number)
    } else {
        lookup_from(entries, name, k + 1)
    }
}

/// The inode of the first entry named `name`.
pub open spec fn lookup(entries: Seq<DirEntry>, name: Seq<u8>) -> Option<u32> {
    lookup_from(entries, name, 0)
}

/// The first position, from `k` on, whose scanned prefix equals `name`.
pub open spec fn unlink_slot_from(entries: Seq<DirEntry>, name: Seq<u8>, k: int) -> Option<int>
    decreases entries.len() - k,
{
    if k < 0 || k >= entries.len() {
        None
    } else if scanned_prefix(entries[k].name@, name) == name {
        Some(k)
    } else {
        unlink_slot_from(entries, name, k + 1)
    }
}

/// The position that `unlink` clears.
pub open spec fn unlink_slot(entries: Seq<DirEntry>, name: Seq<u8>) -> Option<int> {
    unlink_slot_from(entries, name, 0)
}

/// `entries` without position `i`: the last entry takes its place.
pub open spec fn swap_remove(entries: Seq<DirEntry>, i: int) -> Seq<DirEntry> {
    entries.update(i, entries.last()).drop_last()
}

/// The name field that an entry named `name` gets: the name, NUL-padded.
pub open spec fn name_field(name: Seq<u8>) -> Seq<u8> {
    Seq::new(NAME_FIELD_LEN as nat, |k: int| if k < name.len() { name[k] } else { 0u8 })
}

/// The entry is as the directory code writes it: a full-size name field
/// that holds a NUL and a UTF-8 name.
pub open spec fn entry_wf(e: DirEntry) -> bool {
    &&& e.name@.len() == NAME_FIELD_LEN
    &&& has_nul(e.name@)
    &&& valid_utf8(stored_name(e.name@))
}

/// A name that an entry can hold and give back: UTF-8, no NUL byte, and
/// short enough to leave room for the terminating NUL.
pub open spec fn name_ok(name: Seq<u8>) -> bool {
    &&& name.len() <= NAME_LENGTH_LIMIT
    &&& valid_utf8(name)
    &&& forall|i: int| 0 <= i < name.len() ==> name[i] != 0
}

/// The names of the entries, in order.
pub open spec fn entry_names(entries: Seq<DirEntry>) -> Seq<Seq<u8>> {
    Seq::new(entries.len(), |k: int| stored_name(entries[k].name@))
}

/// Byte `k` (0 to 3) of `n`, least significant first.
pub open spec fn le_byte(n: u32, k: u32) -> u8 {
    ((n >> (8 * k)) & 0xff) as u8
}

/// The 32 bytes of an entry on disk: the name field, then the inode number
/// in little-endian order.
pub open spec fn dirent_bytes(e: DirEntry) -> Seq<u8> {
    e.name@ + seq![le_byte(e.inode_number, 0), le_byte(e.inode_number, 1), le_byte(e.inode_number, 2), le_byte(e.inode_number, 3)]
}

/// The inode number stored in bytes 28 to 31 of an on-disk entry.
pub open spec fn dirent_inode(bytes: Seq<u8>) -> u32 {
    (bytes[28] as u32) | ((bytes[29] as u32) << 8) | ((bytes[30] as u32) << 16) | ((bytes[31] as u32) << 24)
}

/// Before the first entry named `name`, and at it, every entry is well
/// formed: looking `name` up reads these entries' names.
#[verifier::opaque]
pub open spec fn scan_safe(entries: Seq<DirEntry>, name: Seq<u8>) -> bool {
    forall|k: int|
        0 <= k < entries.len() && (forall|i: int| 0 <= i < k ==> stored_name(entries[i].name@) != name)
            ==> entry_wf(#[trigger] entries[k])
}

/// The prefixes that the unlink scan turns into strings, up to and
/// including the one that matches, are UTF-8.
#[verifier::opaque]
pub open spec fn unlink_scan_safe(entries: Seq<DirEntry>, name: Seq<u8>) -> bool {
    forall|k: int|
        0 <= k < entries.len() && (forall|i: int| 0 <= i < k ==> scanned_prefix(entries[i].name@, name) != name)
            ==> valid_utf8(scanned_prefix(#[trigger] entries[k].name@, name))
}

proof fn lemma_nul_from_bounds(field: Seq<u8>, k: int)
    requires
        0 <= k <= field.len(),
    ensures
        k <= nul_from(field, k) <= field.len(),
        nul_from(field, k) < field.len() ==> field[nul_from(field, k)] == 0,
        forall|i: int| k <= i < nul_from(field, k) ==> field[i] != 0,
    decreases field.len() - k,
{
    if k < field.len() && field[k] != 0 {
        lemma_nul_from_bounds(field, k + 1);
    }
}

proof fn lemma_has_nul_found(field: Seq<u8>)
    requires
        has_nul(field),
    ensures
        nul_from(field, 0) < field.len(),
{
    lemma_nul_from_bounds(field, 0);
    let w = choose|w: int| 0 <= w < field.len() && field[w] == 0;
    assert(!(nul_from(field, 0) == field.len()) || field[w] != 0);
}

/// Position of the first NUL byte of the field (its length if none).
fn nul_position(field: &Vec<u8>) -> (n: usize)
    ensures
        n == nul_from(field@, 0),
{
    let mut k: usize = 0;
    proof {
        lemma_nul_from_bounds(field@, 0);
    }
    while k < field.len() && field[k] != 0
        invariant
            0 <= k <= field@.len(),
            nul_from(field@, k as int) == nul_from(field@, 0),
        decreases field@.len() - k,
    {
        k = k + 1;
    }
    k
}

/// The first `len` bytes of `field` are exactly `name`.
fn prefix_is(field: &Vec<u8>, len: usize, name: &[u8]) -> (r: bool)
    requires
        len <= field@.len(),
    ensures
        r == (field@.take(len as int) == name@),
{
    if len != name.len() {
        proof {
            assert(field@.take(len as int).len() != name@.len());
        }
        return false;
    }
    let mut k: usize = 0;
    while k < len
        invariant
            0 <= k <= len,
            len == name@.len(),
            len <= field@.len(),
            forall|i: int| 0 <= i < k ==> field@[i] == name@[i],
        decreases len - k,
    {
        if field[k] != name[k] {
            proof {
                assert(field@.take(len as int)[k as int] != name@[k as int]);
            }
            return false;
        }
        k = k + 1;
    }
    proof {
        assert(field@.take(len as int) =~= name@);
    }
    true
}

impl DirEntry {
    /// An entry for `name` and inode `inode_number`.
    pub fn new(name: &[u8], inode_number: u32) -> (e: Self)
        requires
            name@.len() <= NAME_FIELD_LEN,
        ensures
            e.name@ == name_field(name@),
            e.inode_number == inode_number,
            name_ok(name@) ==> entry_wf(e) && stored_name(e.name@) == name@,
    {
        let mut field: Vec<u8> = Vec::new();
        let mut k: usize = 0;
        while k < NAME_FIELD_LEN
            invariant
                0 <= k <= NAME_FIELD_LEN,
                name@.len() <= NAME_FIELD_LEN,
                field@.len() == k,
                forall|i: int| 0 <= i < k ==> field@[i] == name_field(name@)[i],
            decreases NAME_FIELD_LEN - k,
        {
            if k < name.len() {
                field.push(name[k]);
            } else {
                field.push(0);
            }
            k = k + 1;
        }
        proof {
            assert(field@ =~= name_field(name@));
        }
        let e = DirEntry { name: field, inode_number };
        proof {
            if name_ok(name@) {
                let f = e.name@;
                assert(f[name@.len() as int] == 0);
                lemma_nul_from_bounds(f, 0);
                assert(forall|i: int| 0 <= i < name@.len() ==> f[i] == name@[i]);
                assert(nul_from(f, 0) == name@.len());
                assert(stored_name(f) =~= name@);
            }
        }
        e
    }

    /// Reads an entry from its 32 on-disk bytes.
    pub fn from_bytes(data: &[u8]) -> (e: Self)
        requires
            data@.len() >= DIRENT_SZ,
        ensures
            e.name@ == data@.take(NAME_FIELD_LEN as int),
            e.inode_number == dirent_inode(data@),
    {
        let mut field: Vec<u8> = Vec::new();
        let mut k: usize = 0;
        while k < NAME_FIELD_LEN
            invariant
                0 <= k <= NAME_FIELD_LEN,
                data@.len() >= DIRENT_SZ,
                field@ =~= data@.take(k as int),
            decreases NAME_FIELD_LEN - k,
        {
            field.push(data[k]);
            k = k + 1;
        }
        let inode_number = (data[NAME_LENGTH_LIMIT + 1] as u32) | ((data[NAME_LENGTH_LIMIT + 2] as u32) << 8)
            | ((data[NAME_LENGTH_LIMIT + 3] as u32) << 16) | ((data[NAME_LENGTH_LIMIT + 4] as u32) << 24);
        DirEntry { name: field, inode_number }
    }

    /// The 32 on-disk bytes of the entry.
    pub fn to_bytes(&self) -> (bytes: Vec<u8>)
        requires
            self.name@.len() == NAME_FIELD_LEN,
        ensures
            bytes@ == dirent_bytes(*self),
    {
        let mut bytes: Vec<u8> = Vec::new();
        let mut k: usize = 0;
        while k < NAME_FIELD_LEN
            invariant
                0 <= k <= NAME_FIELD_LEN,
                self.name@.len() == NAME_FIELD_LEN,
                bytes@ =~= self.name@.take(k as int),
            decreases NAME_FIELD_LEN - k,
        {
            bytes.push(self.name[k]);
            k = k + 1;
        }
        let n = self.inode_number;
        bytes.push((n & 0xff) as u8);
        bytes.push(((n >> 8) & 0xff) as u8);
        bytes.push(((n >> 16) & 0xff) as u8);
        bytes.push(((n >> 24) & 0xff) as u8);
        proof {
            assert(n >> (8 * 0u32) == n) by (bit_vector);
            assert(bytes@ =~= dirent_bytes(*self));
        }
        bytes
    }
}

/// The entries of a directory, in on-disk order.
pub struct Directory {
    pub entries: Vec<DirEntry>,
}

/// The first position `k` or later holding `name` gives the lookup.
proof fn lemma_lookup_hit(entries: Seq<DirEntry>, name: Seq<u8>, k: int)
    requires
        0 <= k < entries.len(),
        stored_name(entries[k].name@) == name,
        forall|i: int| 0 <= i < k ==> stored_name(entries[i].name@) != name,
    ensures
        lookup(entries, name) == Some(entries[k].inode_number),
{
    lemma_lookup_skip(entries, name, 0, k);
}

/// Positions before `k` that do not hold `name` do not change the lookup.
proof fn lemma_lookup_skip(entries: Seq<DirEntry>, name: Seq<u8>, j: int, k: int)
    requires
        0 <= j <= k <= entries.len(),
        forall|i: int| 0 <= i < k ==> stored_name(entries[i].name@) != name,
    ensures
        lookup_from(entries, name, j) == lookup_from(entries, name, k),
    decreases k - j,
{
    if j < k {
        lemma_lookup_skip(entries, name, j + 1, k);
    }
}

/// Positions before `k` whose prefix does not match do not change the slot.
proof fn lemma_slot_skip(entries: Seq<DirEntry>, name: Seq<u8>, j: int, k: int)
    requires
        0 <= j <= k <= entries.len(),
        forall|i: int| 0 <= i < k ==> scanned_prefix(entries[i].name@, name) != name,
    ensures
        unlink_slot_from(entries, name, j) == unlink_slot_from(entries, name, k),
    decreases k - j,
{
    if j < k {
        lemma_slot_skip(entries, name, j + 1, k);
    }
}

impl Directory {
    /// The inode of the first entry named `name`, as the lookup scan finds it.
    pub fn find_inode_id(&self, name: &[u8]) -> (id: Option<u32>)
        requires
            scan_safe(self.entries@, name@),
        ensures
            id == lookup(self.entries@, name@),
    {
        proof {
            reveal(scan_safe);
        }
        let mut k: usize = 0;
        while k < self.entries.len()
            invariant
                0 <= k <= self.entries@.len(),
                scan_safe(self.entries@, name@),
                forall|i: int| 0 <= i < k ==> stored_name(self.entries@[i].name@) != name@,
            decreases self.entries@.len() - k,
        {
            let field = &self.entries[k].name;
            proof {
                reveal(scan_safe);
                assert(entry_wf(self.entries@[k as int]));
                lemma_has_nul_found(field@);
                lemma_nul_from_bounds(field@, 0);
            }
            let n = nul_position(field);
            if prefix_is(field, n, name) {
                proof {
                    lemma_lookup_hit(self.entries@, name@, k as int);
                }
                return Some(self.entries[k].inode_number);
            }
            k = k + 1;
        }
        proof {
            lemma_lookup_skip(self.entries@, name@, 0, k as int);
        }
        None
    }

    /// The names of all entries, in order.
    pub fn ls(&self) -> (names: Vec<Vec<u8>>)
        requires
            forall|k: int| 0 <= k < self.entries@.len() ==> entry_wf(#[trigger] self.entries@[k]),
        ensures
            names@.len() == self.entries@.len(),
            forall|k: int| 0 <= k < names@.len() ==> (#[trigger] names@[k])@ == stored_name(self.entries@[k].name@),
    {
        let mut names: Vec<Vec<u8>> = Vec::new();
        let mut k: usize = 0;
        while k < self.entries.len()
            invariant
                0 <= k <= self.entries@.len(),
                forall|i: int| 0 <= i < self.entries@.len() ==> entry_wf(#[trigger] self.entries@[i]),
                names@.len() == k,
                forall|i: int| 0 <= i < k ==> (#[trigger] names@[i])@ == stored_name(self.entries@[i].name@),
            decreases self.entries@.len() - k,
        {
            let field = &self.entries[k].name;
            proof {
                assert(entry_wf(self.entries@[k as int]));
                lemma_has_nul_found(field@);
                lemma_nul_from_bounds(field@, 0);
            }
            let n = nul_position(field);
            let mut name: Vec<u8> = Vec::new();
            let mut j: usize = 0;
            while j < n
                invariant
                    0 <= j <= n,
                    n <= field@.len(),
                    name@ =~= field@.take(j as int),
                decreases n - j,
            {
                name.push(field[j]);
                j = j + 1;
            }
            names.push(name);
            k = k + 1;
        }
        names
    }

    /// Adds an entry for `name` with the freshly allocated inode
    /// `new_inode_id`, unless the name is taken.
    pub fn create(&mut self, name: &[u8], new_inode_id: u32) -> (id: Option<u32>)
        requires
            scan_safe(old(self).entries@, name@),
            name@.len() <= NAME_FIELD_LEN,
        ensures
            lookup(old(self).entries@, name@).is_some() ==> id.is_none()
                && final(self).entries@ == old(self).entries@,
            lookup(old(self).entries@, name@).is_none() ==> id == Some(new_inode_id)
                && final(self).entries@.len() == old(self).entries@.len() + 1
                && final(self).entries@.drop_last() == old(self).entries@
                && final(self).entries@.last().name@ == name_field(name@)
                && final(self).entries@.last().inode_number == new_inode_id,
    {
        if self.find_inode_id(name).is_some() {
            return None;
        }
        let e = DirEntry::new(name, new_inode_id);
        self.entries.push(e);
        proof {
            assert(self.entries@.drop_last() =~= old(self).entries@);
        }
        Some(new_inode_id)
    }

    /// Adds an entry `new_name` for the inode of `old_name`, unless
    /// `old_name` is missing or `new_name` is taken.  Returns that inode,
    /// whose link count then goes up by one.
    pub fn link(&mut self, old_name: &[u8], new_name: &[u8]) -> (id: Option<u32>)
        requires
            scan_safe(old(self).entries@, old_name@),
            lookup(old(self).entries@, old_name@).is_some() ==> scan_safe(old(self).entries@, new_name@),
            lookup(old(self).entries@, old_name@).is_some() && lookup(old(self).entries@, new_name@).is_none()
                ==> new_name@.len() <= NAME_FIELD_LEN,
        ensures
            lookup(old(self).entries@, old_name@).is_none() || lookup(old(self).entries@, new_name@).is_some()
                ==> id.is_none() && final(self).entries@ == old(self).entries@,
            lookup(old(self).entries@, old_name@).is_some() && lookup(old(self).entries@, new_name@).is_none()
                ==> id == lookup(old(self).entries@, old_name@)
                && final(self).entries@.len() == old(self).entries@.len() + 1
                && final(self).entries@.drop_last() == old(self).entries@
                && final(self).entries@.last().name@ == name_field(new_name@)
                && final(self).entries@.last().inode_number == id.unwrap(),
    {
        let old_inode_id = match self.find_inode_id(old_name) {
            Some(i) => i,
            None => return None,
        };
        if self.find_inode_id(new_name).is_some() {
            return None;
        }
        let e = DirEntry::new(new_name, old_inode_id);
        self.entries.push(e);
        proof {
            assert(self.entries@.drop_last() =~= old(self).entries@);
        }
        Some(old_inode_id)
    }

    /// Removes `name`: the first entry whose scanned prefix is `name` gives
    /// its place to the last entry, and the directory shrinks by one entry.
    /// Returns the inode that `name` named, whose link count then drops.
    pub fn unlink(&mut self, name: &[u8]) -> (id: Option<u32>)
        requires
            scan_safe(old(self).entries@, name@),
            lookup(old(self).entries@, name@).is_some() ==> unlink_scan_safe(old(self).entries@, name@),
        ensures
            id == lookup(old(self).entries@, name@),
            id.is_none() ==> final(self).entries@ == old(self).entries@,
            id.is_some() ==> unlink_slot(old(self).entries@, name@).is_some()
                && final(self).entries@ == swap_remove(old(self).entries@, unlink_slot(old(self).entries@, name@).unwrap()),
    {
        let inode_id = self.find_inode_id(name);
        if inode_id.is_none() {
            return None;
        }
        proof {
            lemma_unlink_slot_exists(self.entries@, name@);
        }
        let k = unlink_position(&self.entries, name);
        let last = self.entries.pop().unwrap();
        if k < self.entries.len() {
            self.entries.set(k, last);
        }
        proof {
            let o = old(self).entries@;
            if (k as int) < o.len() - 1 {
                assert(self.entries@ =~= o.drop_last().update(k as int, o.last()));
            } else {
                assert(self.entries@ =~= o.drop_last());
            }
            assert(self.entries@ =~= swap_remove(o, k as int));
        }
        inode_id
    }
}

/// The position that `unlink` clears, found by scanning the prefixes.
fn unlink_position(entries: &Vec<DirEntry>, name: &[u8]) -> (k: usize)
    requires
        unlink_slot(entries@, name@).is_some(),
    ensures
        unlink_slot(entries@, name@) == Some(k as int),
        k < entries@.len(),
{
    let mut k: usize = 0;
    while k < entries.len()
        invariant
            0 <= k <= entries@.len(),
            unlink_slot_from(entries@, name@, k as int) == unlink_slot(entries@, name@),
        decreases entries@.len() - k,
    {
        let field = &entries[k].name;
        let n = nul_position(field);
        proof {
            lemma_nul_from_bounds(field@, 0);
        }
        let len = if n <= name.len() { n } else { name.len() };
        if prefix_is(field, len, name) {
            return k;
        }
        k = k + 1;
    }
    k
}

/// A directory that holds `name` has a position whose prefix matches it.
proof fn lemma_unlink_slot_exists(entries: Seq<DirEntry>, name: Seq<u8>)
    requires
        scan_safe(entries, name),
        lookup(entries, name).is_some(),
    ensures
        unlink_slot(entries, name).is_some(),
{
    reveal(scan_safe);
    let e = lemma_lookup_some(entries, name, 0);
    let f = entries[e].name@;
    lemma_nul_from_bounds(f, 0);
    assert(entry_wf(entries[e]));
    lemma_has_nul_found(f);
    assert(stored_name(f).len() == nul_from(f, 0));
    assert(scanned_prefix(f, name) =~= name);
    lemma_slot_found(entries, name, 0, e);
}

/// A matching prefix at `e` means the scan from `j <= e` finds a slot.
proof fn lemma_slot_found(entries: Seq<DirEntry>, name: Seq<u8>, j: int, e: int)
    requires
        0 <= j <= e < entries.len(),
        scanned_prefix(entries[e].name@, name) == name,
    ensures
        unlink_slot_from(entries, name, j).is_some(),
    decreases e - j,
{
    if j < e && scanned_prefix(entries[j].name@, name) != name {
        lemma_slot_found(entries, name, j + 1, e);
    }
}

/// When the lookup finds `name` from `j` on, the position that holds it.
proof fn lemma_lookup_some(entries: Seq<DirEntry>, name: Seq<u8>, j: int) -> (e: int)
    requires
        0 <= j,
        lookup_from(entries, name, j).is_some(),
    ensures
        j <= e < entries.len(),
        stored_name(entries[e].name@) == name,
        forall|i: int| j <= i < e ==> stored_name(entries[i].name@) != name,
        lookup_from(entries, name, j) == Some(entries[e].inode_number),
    decreases entries.len() - j,
{
    if stored_name(entries[j].name@) == name {
        j
    } else {
        lemma_lookup_some(entries, name, j + 1)
    }
}

/// The link count after `unlink`: one less, but never below zero.
pub open spec fn count_after_unlink(link_count: u32) -> u32 {
    if link_count > 0 {
        (link_count - 1) as u32
    } else {
        0
    }
}

/// The link count after a link is added (`add`) or removed.
pub open spec fn count_after_modify(link_count: u32, add: bool) -> u32 {
    if add {
        (link_count + 1) as u32
    } else {
        (link_count - 1) as u32
    }
}

/// Adding a link counts one more; removing one counts one less, so that
/// removing undoes adding; `unlink` counts one less too, down to zero.
pub proof fn lemma_link_count_steps(l: u32)
    ensures
        l < u32::MAX ==> count_after_modify(l, true) == l + 1,
        l > 0 ==> count_after_modify(l, false) + 1 == l,
        l < u32::MAX ==> count_after_modify(count_after_modify(l, true), false) == l,
        l > 0 ==> count_after_unlink(l) + 1 == l,
        l == 0 ==> count_after_unlink(l) == 0,
        l < u32::MAX ==> count_after_unlink(count_after_modify(l, true)) == l,
{
}

/// The link count of an inode after one of its names is removed, and
/// whether the inode is then to be freed: the count drops by one unless it
/// is already zero, and the inode goes when it reaches zero.
pub fn release_link(link_count: u32) -> (r: (u32, bool))
    ensures
        r.0 == count_after_unlink(link_count),
        r.1 == (r.0 == 0),
{
    let mut count = link_count;
    if count > 0 {
        count = count - 1;
    }
    (count, count == 0)
}

/// The link count of an inode after a link is added (`add`) or removed,
/// and whether the inode's data is then to be cleared: it is cleared when
/// the count reaches zero.
pub fn modify_link_count(link_count: u32, add: bool) -> (r: (u32, bool))
    requires
        add ==> link_count < u32::MAX,
        !add ==> link_count > 0,
    ensures
        r.0 == count_after_modify(link_count, add),
        r.1 == (r.0 == 0),
{
    let count = if add { link_count + 1 } else { link_count - 1 };
    (count, count == 0)
}

/// The entries stored in a directory's data: one per full 32 bytes, in
/// order; trailing bytes short of a whole entry are not an entry.
pub open spec fn entries_in(data: Seq<u8>) -> nat {
    data.len() / DIRENT_SZ as nat
}

impl Directory {
    /// The directory whose data is `data`: entry `k` is read from bytes
    /// `32 * k` to `32 * k + 32`.
    pub fn from_bytes(data: &[u8]) -> (dir: Self)
        ensures
            dir.entries@.len() == entries_in(data@),
            forall|k: int|
                0 <= k < dir.entries@.len() ==> (#[trigger] dir.entries@[k]).name@ == data@.subrange(
                    DIRENT_SZ * k,
                    DIRENT_SZ * k + NAME_FIELD_LEN,
                ) && dir.entries@[k].inode_number == dirent_inode(
                    data@.subrange(DIRENT_SZ * k, DIRENT_SZ * k + DIRENT_SZ),
                ),
    {
        let dlen = data.len();
        let count = dlen / DIRENT_SZ;
        let mut entries: Vec<DirEntry> = Vec::new();
        let mut k: usize = 0;
        while k < count
            invariant
                0 <= k <= count,
                dlen == data@.len(),
                count == dlen / 32,
                entries@.len() == k,
                forall|a: int|
                    0 <= a < k ==> (#[trigger] entries@[a]).name@ == data@.subrange(
                        DIRENT_SZ * a,
                        DIRENT_SZ * a + NAME_FIELD_LEN,
                    ) && entries@[a].inode_number == dirent_inode(
                        data@.subrange(DIRENT_SZ * a, DIRENT_SZ * a + DIRENT_SZ),
                    ),
            decreases count - k,
        {
            proof {
                assert(DIRENT_SZ * k + DIRENT_SZ <= DIRENT_SZ * count) by (nonlinear_arith)
                    requires
                        k < count,
                ;
                assert(32 * count <= dlen) by (nonlinear_arith)
                    requires
                        count == dlen / 32,
                ;
                assert(DIRENT_SZ * k + DIRENT_SZ <= dlen);
            }
            let chunk = vstd::slice::slice_subrange(data, DIRENT_SZ * k, DIRENT_SZ * k + DIRENT_SZ);
            let e = DirEntry::from_bytes(chunk);
            proof {
                assert(e.name@ =~= data@.subrange(DIRENT_SZ * k, DIRENT_SZ * k + NAME_FIELD_LEN));
            }
            entries.push(e);
            k = k + 1;
        }
        Directory { entries }
    }

    /// The directory's data: its entries' bytes, one after another.
    pub fn to_bytes(&self) -> (data: Vec<u8>)
        requires
            forall|k: int| 0 <= k < self.entries@.len() ==> (#[trigger] self.entries@[k]).name@.len() == NAME_FIELD_LEN,
        ensures
            data@.len() == DIRENT_SZ * self.entries@.len(),
            forall|k: int|
                0 <= k < self.entries@.len() ==> data@.subrange(DIRENT_SZ * k, DIRENT_SZ * k + DIRENT_SZ)
                    == dirent_bytes(#[trigger] self.entries@[k]),
    {
        let mut data: Vec<u8> = Vec::new();
        let mut k: usize = 0;
        while k < self.entries.len()
            invariant
                0 <= k <= self.entries@.len(),
                forall|a: int| 0 <= a < self.entries@.len() ==> (#[trigger] self.entries@[a]).name@.len() == NAME_FIELD_LEN,
                data@.len() == DIRENT_SZ * k,
                forall|a: int|
                    0 <= a < k ==> data@.subrange(DIRENT_SZ * a, DIRENT_SZ * a + DIRENT_SZ)
                        == dirent_bytes(#[trigger] self.entries@[a]),
            decreases self.entries@.len() - k,
        {
            let bytes = self.entries[k].to_bytes();
            let ghost before = data@;
            let mut b: usize = 0;
            while b < bytes.len()
                invariant
                    0 <= b <= bytes@.len(),
                    bytes@.len() == DIRENT_SZ,
                    data@ =~= before + bytes@.take(b as int),
                decreases bytes@.len() - b,
            {
                data.push(bytes[b]);
                b = b + 1;
            }
            proof {
                assert(bytes@.take(DIRENT_SZ as int) =~= bytes@);
                assert forall|a: int| 0 <= a < k + 1 implies data@.subrange(DIRENT_SZ * a, DIRENT_SZ * a + DIRENT_SZ)
                    == dirent_bytes(#[trigger] self.entries@[a]) by {
                    assert(DIRENT_SZ * a + DIRENT_SZ <= DIRENT_SZ * (k + 1)) by (nonlinear_arith)
                        requires
                            a < k + 1,
                    ;
                    if a < k {
                        assert(DIRENT_SZ * a + DIRENT_SZ <= DIRENT_SZ * k) by (nonlinear_arith)
                            requires
                                a < k,
                        ;
                        assert(data@.subrange(DIRENT_SZ * a, DIRENT_SZ * a + DIRENT_SZ) =~= before.subrange(
                            DIRENT_SZ * a,
                            DIRENT_SZ * a + DIRENT_SZ,
                        ));
                    } else {
                        assert(data@.subrange(DIRENT_SZ * a, DIRENT_SZ * a + DIRENT_SZ) =~= bytes@);
                    }
                }
            }
            k = k + 1;
        }
        data
    }
}

/// Removing a name that was just linked undoes the link: after `link` has
/// appended an entry for `new_name` (inode `id`) to a directory where no
/// entry's scanned prefix is `new_name`, `unlink(new_name)` clears exactly
/// that entry, leaving the directory as it was, and the link count that the
/// link raised from `l` comes back to `l`, with nothing to clear.
pub proof fn lemma_link_then_unlink(before: Seq<DirEntry>, after: Seq<DirEntry>, new_name: Seq<u8>, id: u32, l: u32)
    requires
        name_ok(new_name),
        forall|k: int| 0 <= k < before.len() ==> scanned_prefix(#[trigger] before[k].name@, new_name) != new_name,
        after.len() == before.len() + 1,
        after.drop_last() == before,
        after.last().name@ == name_field(new_name),
        after.last().inode_number == id,
        1 <= l < u32::MAX,
    ensures
        lookup(after, new_name) == Some(id),
        unlink_slot(after, new_name) == Some(before.len() as int),
        swap_remove(after, before.len() as int) == before,
        count_after_unlink(count_after_modify(l, true)) == l,
        count_after_unlink(count_after_modify(l, true)) != 0,
{
    lemma_name_field_stored(new_name);
    let n = before.len() as int;
    let f = after[n].name@;
    lemma_nul_from_bounds(f, 0);
    assert(stored_name(f).len() == nul_from(f, 0));
    assert(scanned_prefix(f, new_name) =~= new_name);
    assert forall|i: int| 0 <= i < n implies scanned_prefix(after[i].name@, new_name) != new_name by {
        assert(after[i] == before[i]);
    }
    assert forall|i: int| 0 <= i < n implies stored_name(after[i].name@) != new_name by {
        assert(after[i] == before[i]);
        let g = before[i].name@;
        lemma_nul_from_bounds(g, 0);
        if stored_name(g) == new_name {
            assert(scanned_prefix(g, new_name) =~= stored_name(g));
        }
    }
    lemma_lookup_hit(after, new_name, n);
    lemma_slot_skip(after, new_name, 0, n);
    assert(swap_remove(after, n) =~= before);
}

/// The lookup from `j` on finds nothing exactly when no entry from `j` on
/// holds `name`.
proof fn lemma_lookup_none(entries: Seq<DirEntry>, name: Seq<u8>, j: int)
    requires
        0 <= j,
    ensures
        lookup_from(entries, name, j).is_none() <==> forall|k: int|
            j <= k < entries.len() ==> stored_name(#[trigger] entries[k].name@) != name,
    decreases entries.len() - j,
{
    if j < entries.len() {
        lemma_lookup_none(entries, name, j + 1);
    }
}

/// When only position `k` holds `name`, the lookup gives its inode.
proof fn lemma_lookup_unique(entries: Seq<DirEntry>, name: Seq<u8>, k: int)
    requires
        0 <= k < entries.len(),
        stored_name(entries[k].name@) == name,
        forall|i: int| 0 <= i < entries.len() && i != k ==> stored_name(#[trigger] entries[i].name@) != name,
    ensures
        lookup(entries, name) == Some(entries[k].inode_number),
{
    lemma_lookup_hit(entries, name, k);
}

/// The name field written for a valid name gives that name back.
proof fn lemma_name_field_stored(name: Seq<u8>)
    requires
        name_ok(name),
    ensures
        stored_name(name_field(name)) == name,
        has_nul(name_field(name)),
{
    let f = name_field(name);
    assert(f[name.len() as int] == 0);
    lemma_nul_from_bounds(f, 0);
    assert(forall|i: int| 0 <= i < name.len() ==> f[i] == name[i]);
    assert(nul_from(f, 0) == name.len());
    assert(stored_name(f) =~= name);
}

/// What `create` or `link` appends is found under its name: after an entry
/// for `name` with inode `id` is added to a directory that lacked `name`,
/// looking `name` up gives `id`, and every other name is found as before.
pub proof fn lemma_add_then_find(before: Seq<DirEntry>, after: Seq<DirEntry>, name: Seq<u8>, id: u32, other: Seq<u8>)
    requires
        name_ok(name),
        lookup(before, name).is_none(),
        after.len() == before.len() + 1,
        after.drop_last() == before,
        after.last().name@ == name_field(name),
        after.last().inode_number == id,
    ensures
        lookup(after, name) == Some(id),
        other != name ==> lookup(after, other) == lookup(before, other),
{
    lemma_name_field_stored(name);
    lemma_lookup_none(before, name, 0);
    let n = before.len() as int;
    assert forall|i: int| 0 <= i < n implies stored_name(#[trigger] after[i].name@) != name by {
        assert(after[i] == before[i]);
    }
    lemma_lookup_hit(after, name, n);
    if other != name {
        if lookup(before, other).is_some() {
            let e = lemma_lookup_some(before, other, 0);
            assert forall|i: int| 0 <= i < e implies stored_name(#[trigger] after[i].name@) != other by {
                assert(after[i] == before[i]);
            }
            assert(after[e] == before[e]);
            lemma_lookup_hit(after, other, e);
        } else {
            lemma_lookup_none(before, other, 0);
            assert forall|i: int| 0 <= i < after.len() implies stored_name(#[trigger] after[i].name@) != other by {
                if i < n {
                    assert(after[i] == before[i]);
                }
            }
            lemma_lookup_none(after, other, 0);
        }
    }
}

/// What `unlink` removes is gone: in a directory whose names are distinct,
/// when the slot that `unlink` clears holds `name` itself, `name` is no
/// longer found afterwards, and every other name is found as before.
pub proof fn lemma_unlink_then_find(entries: Seq<DirEntry>, name: Seq<u8>, other: Seq<u8>)
    requires
        entry_names(entries).no_duplicates(),
        unlink_slot(entries, name).is_some(),
        stored_name(entries[unlink_slot(entries, name).unwrap()].name@) == name,
    ensures
        lookup(swap_remove(entries, unlink_slot(entries, name).unwrap()), name).is_none(),
        other != name ==> lookup(swap_remove(entries, unlink_slot(entries, name).unwrap()), other) == lookup(entries, other),
{
    let i = lemma_slot_position(entries, name, 0);
    let last = entries.len() - 1;
    let after = swap_remove(entries, i);
    assert forall|a: int, b: int| 0 <= a < entries.len() && 0 <= b < entries.len() && a != b
        implies stored_name(entries[a].name@) != stored_name(entries[b].name@) by {
        assert(entry_names(entries)[a] == stored_name(entries[a].name@));
        assert(entry_names(entries)[b] == stored_name(entries[b].name@));
    }
    assert forall|k: int| 0 <= k < after.len() implies stored_name(#[trigger] after[k].name@) != name by {
        if k == i {
            assert(after[k] == entries[last]);
        } else {
            assert(after[k] == entries[k]);
        }
    }
    lemma_lookup_none(after, name, 0);
    if other != name {
        if lookup(entries, other).is_some() {
            let p = lemma_lookup_some(entries, other, 0);
            assert(p != i);
            let q = if p == last { i } else { p };
            assert(after[q] == entries[p]);
            assert forall|k: int| 0 <= k < after.len() && k != q implies stored_name(#[trigger] after[k].name@) != other by {
                if k == i {
                    assert(after[k] == entries[last]);
                } else {
                    assert(after[k] == entries[k]);
                }
            }
            lemma_lookup_unique(after, other, q);
        } else {
            lemma_lookup_none(entries, other, 0);
            assert forall|k: int| 0 <= k < after.len() implies stored_name(#[trigger] after[k].name@) != other by {
                if k == i {
                    assert(after[k] == entries[last]);
                } else {
                    assert(after[k] == entries[k]);
                }
            }
            lemma_lookup_none(after, other, 0);
        }
    }
}

/// The slot found from `j` on is a position at or after `j`.
proof fn lemma_slot_position(entries: Seq<DirEntry>, name: Seq<u8>, j: int) -> (i: int)
    requires
        0 <= j,
        unlink_slot_from(entries, name, j).is_some(),
    ensures
        unlink_slot_from(entries, name, j) == Some(i),
        j <= i < entries.len(),
    decreases entries.len() - j,
{
    if scanned_prefix(entries[j].name@, name) == name {
        j
    } else {
        lemma_slot_position(entries, name, j + 1)
    }
}

/// Reading back the bytes of an entry gives the entry.
pub proof fn lemma_dirent_round_trip(e: DirEntry)
    requires
        e.name@.len() == NAME_FIELD_LEN,
    ensures
        dirent_bytes(e).take(NAME_FIELD_LEN as int) == e.name@,
        dirent_inode(dirent_bytes(e)) == e.inode_number,
{
    let b = dirent_bytes(e);
    let n = e.inode_number;
    assert(b.take(NAME_FIELD_LEN as int) =~= e.name@);
    assert(b[28] == le_byte(n, 0));
    assert(b[29] == le_byte(n, 1));
    assert(b[30] == le_byte(n, 2));
    assert(b[31] == le_byte(n, 3));
    assert((((n >> 0u32) & 0xff) as u8 as u32) | ((((n >> 8u32) & 0xff) as u8 as u32) << 8)
        | ((((n >> 16u32) & 0xff) as u8 as u32) << 16) | ((((n >> 24u32) & 0xff) as u8 as u32) << 24) == n)
        by (bit_vector);
}

} // verus!
